//! The scale-offset filter undoes what its encoding does.

use crate::format::bitstream::{bits_of, lemma_read_bits_of, stream_of};
use crate::format::bytes::{
    le_bytes, lemma_le_roundtrip_exact, lemma_number_bytes_len, lemma_numbers_bytes_len,
    lemma_pow256_is_pow2, lemma_pow256_pos, lemma_pow256_values, number_bytes,
    numbers_bytes, pow256,
};
use crate::format::nbit_scaleoffset::scaleoffset::{
    so_integer, so_minbits, so_raw, so_result, so_scaled, Scaled, Unscaled, SO_CLS_FLOAT,
    SO_CLS_INTEGER, SO_FLOAT_DSCALE,
};
use crate::format::FormatResult;
use vstd::arithmetic::div_mod::{lemma_mod_multiples_vanish, lemma_small_mod};
use vstd::arithmetic::power2::{lemma_pow2_adds, lemma_pow2_pos, lemma_pow2_unfold, pow2};
use vstd::prelude::*;

verus! {

/// The bytes of an integer, signed in two's complement or not, as a number of `n` bytes.
pub open spec fn word(x: int, n: nat) -> nat {
    if x < 0 {
        (x + pow256(n)) as nat
    } else {
        x as nat
    }
}

/// Whether an integer fits into `n` bytes, signed or unsigned.
pub open spec fn fits_word(x: int, n: nat) -> bool {
    -(pow256(n) as int) <= 2 * x && x < pow256(n)
}

/// Whether the header in front of a chunk says `minbits` bits per element and the smallest
/// value `m`, in eight bytes.
pub open spec fn offset_header(data: Seq<u8>, minbits: nat, m: int) -> bool {
    &&& data.len() >= 21
    &&& data.subrange(0, 4) == le_bytes(minbits, 4)
    &&& data[4] == 8
    &&& data.subrange(5, 13) == le_bytes(word(m, 8), 8)
}

/// The bits that stand for an element: the difference to the smallest value, or ones
/// alone for a missing element.
pub open spec fn offset_bits(x: Option<int>, m: int, minbits: nat) -> Seq<bool> {
    match x {
        Some(v) => bits_of((v - m) as nat, minbits),
        None => Seq::new(minbits, |i: int| true),
    }
}

/// Whether the elements stand behind the header, `minbits` bits each.
pub open spec fn offsets_packed(
    data: Seq<u8>,
    xs: Seq<Option<int>>,
    m: int,
    minbits: nat,
) -> bool {
    let s = stream_of(data.skip(21));
    &&& xs.len() * minbits <= s.len()
    &&& forall|i: int|
        0 <= i < xs.len() ==> s.subrange(i * minbits, i * minbits + minbits) == offset_bits(
            #[trigger] xs[i],
            m,
            minbits,
        )
}

/// Whether parameters are those of `n` integers of `size` bytes each, with the fill value
/// `fill` if there is one.
pub open spec fn offset_parameters(
    cd: Seq<u32>,
    n: nat,
    size: nat,
    little: bool,
    fill: Option<int>,
) -> bool {
    &&& cd.len() >= 10
    &&& cd[2] == n
    &&& cd[4] == size
    &&& (cd[6] == 0) == little
    &&& 0 < size <= 8
    &&& match fill {
        Some(v) => {
            &&& cd[7] == 1
            &&& fits_word(v, size)
            &&& if size <= 4 {
                cd[8] == word(v, size)
            } else {
                cd[8] + cd[9] * 0x1_0000_0000 == word(v, size)
            }
        },
        None => cd[7] != 1,
    }
}

/// Whether integers can be told from the smallest one by `minbits` bits. Where there is a
/// fill value the largest difference is the mark of missing elements.
pub open spec fn offsets_fit(xs: Seq<Option<int>>, m: int, minbits: nat, fill: bool) -> bool {
    forall|i: int|
        0 <= i < xs.len() ==> match #[trigger] xs[i] {
            Some(v) => {
                &&& 0 <= v - m < pow2(minbits)
                &&& fill ==> v - m < pow2(minbits) - 1
            },
            None => fill,
        }
}

/// What an element is, where missing elements are the fill value.
pub open spec fn or_fill(x: Option<int>, fill: Option<int>) -> int {
    match x {
        Some(v) => v,
        None => fill->0,
    }
}

proof fn lemma_ones(n: nat)
    ensures
        pow2(n) > 0,
        bits_of((pow2(n) - 1) as nat, n) == Seq::new(n, |i: int| true),
    decreases n,
{
    lemma_pow2_pos(n);
    if n == 0 {
        assert(bits_of((pow2(n) - 1) as nat, n) =~= Seq::new(n, |i: int| true));
    } else {
        let m = (n - 1) as nat;
        lemma_ones(m);
        lemma_pow2_unfold(n);
        let x = (pow2(n) - 1) as nat;
        assert(x / 2 == (pow2(m) - 1) as nat);
        assert(x % 2 == 1);
        assert(bits_of(x, n) =~= Seq::new(n, |i: int| true));
    }
}

/// What is read of an element.
proof fn lemma_raw(
    data: Seq<u8>,
    xs: Seq<Option<int>>,
    m: int,
    minbits: nat,
    fill: bool,
    i: int,
)
    requires
        offset_header(data, minbits, m),
        offsets_packed(data, xs, m, minbits),
        offsets_fit(xs, m, minbits, fill),
        minbits < 64,
        0 <= i < xs.len(),
    ensures
        so_minbits(data) == minbits,
        so_raw(data, i) == match xs[i] {
            Some(v) => v - m,
            None => pow2(minbits) - 1,
        },
{
    lemma_pow256_values();
    lemma_le_roundtrip_exact(minbits, 4);
    let s = stream_of(data.skip(21));
    assert(data.skip(21) =~= data.subrange(21, data.len() as int));
    let n = xs.len() as int;
    let b = minbits as int;
    assert(0 <= i * b && i * b + b <= n * b) by (nonlinear_arith)
        requires
            0 <= i,
            i + 1 <= n,
            0 <= b,
    ;
    lemma_ones(minbits);
    let x = match xs[i] {
        Some(v) => (v - m) as nat,
        None => (pow2(minbits) - 1) as nat,
    };
    assert(s.subrange(i * minbits, i * minbits + minbits) == offset_bits(xs[i], m, minbits));
    lemma_read_bits_of(s, i * minbits, x, minbits);
    lemma_small_mod(x, pow2(minbits));
}

/// A word of eight bytes, cut to `n` bytes, is the word of `n` bytes.
proof fn lemma_cut_word(a: nat, m: int, n: nat)
    requires
        0 < n <= 8,
        fits_word(m, 8),
        fits_word(a + m, n),
    ensures
        (a + word(m, 8)) % pow256(n) == word(a + m, n),
{
    lemma_pow256_pos(n);
    lemma_pow256_is_pow2(n);
    lemma_pow256_is_pow2(8);
    let p = pow256(n) as int;
    let k = pow2((64 - 8 * n) as nat) as int;
    lemma_pow2_adds(8 * n, (64 - 8 * n) as nat);
    let x = a + m;
    let w = word(x, n) as int;
    // The sum differs from the word by a multiple of the modulus.
    let j = (if m < 0 {
        k
    } else {
        0
    }) - (if x < 0 {
        1int
    } else {
        0
    });
    assert(a + word(m, 8) == p * j + w) by (nonlinear_arith)
        requires
            pow256(8) == p * k,
            p == pow256(n),
            a + word(m, 8) == x + (if m < 0 {
                p * k
            } else {
                0
            }),
            w == x + (if x < 0 {
                p
            } else {
                0
            }),
            j == (if m < 0 {
                k
            } else {
                0
            }) - (if x < 0 {
                1int
            } else {
                0
            }),
    ;
    lemma_mod_multiples_vanish(j, w, p);
    lemma_small_mod(w as nat, p as nat);
}

/// Numbers stand one behind the other, each in its bytes.
pub proof fn lemma_numbers_at(vals: Seq<nat>, size: nat, little: bool, i: int)
    requires
        0 <= i < vals.len(),
    ensures
        0 <= i * size,
        i * size + size <= numbers_bytes(vals, size, little).len(),
        numbers_bytes(vals, size, little).subrange(i * size, i * size + size) == number_bytes(
            vals[i],
            size,
            little,
        ),
    decreases vals.len(),
{
    let all = numbers_bytes(vals, size, little);
    let front = vals.drop_last();
    let before = numbers_bytes(front, size, little);
    lemma_numbers_bytes_len(vals, size, little);
    lemma_numbers_bytes_len(front, size, little);
    lemma_number_bytes_len(vals.last(), size, little);
    let n = vals.len() as int;
    let z = size as int;
    assert(0 <= i * z && i * z + z <= n * z) by (nonlinear_arith)
        requires
            0 <= i,
            i + 1 <= n,
            0 <= z,
    ;
    if i == n - 1 {
        assert(all.subrange(i * size, i * size + size) =~= number_bytes(vals[i], size, little));
    } else {
        lemma_numbers_at(front, size, little, i);
        assert(all.subrange(i * size, i * size + size) =~= before.subrange(
            i * size,
            i * size + size,
        ));
    }
}

/// Scale-offset decoding undoes scale-offset encoding: a chunk that holds the differences of
/// integers to the smallest one, behind a header with that one, is decoded to the bytes of
/// these integers, negative ones included; missing elements come out as the fill value.
pub proof fn lemma_offsets_decoded(
    data: Seq<u8>,
    cd: Seq<u32>,
    xs: Seq<Option<int>>,
    m: int,
    minbits: nat,
    size: nat,
    little: bool,
    fill: Option<int>,
    r: FormatResult<Unscaled>,
)
    requires
        offset_parameters(cd, xs.len(), size, little, fill),
        cd[3] == SO_CLS_INTEGER,
        cd[1] != 8 * size,
        minbits < 8 * size,
        fits_word(m, 8),
        offset_header(data, minbits, m),
        offsets_packed(data, xs, m, minbits),
        offsets_fit(xs, m, minbits, fill is Some),
        forall|i: int|
            0 <= i < xs.len() ==> (#[trigger] xs[i] matches Some(v) ==> fits_word(v, size)),
        so_result(data, cd, r),
    ensures
        r matches Ok(Unscaled::Bytes(out)) && {
            &&& out@.len() == xs.len() * size
            &&& forall|i: int|
                0 <= i < xs.len() ==> out@.subrange(i * size, i * size + size) == number_bytes(
                    word(or_fill(#[trigger] xs[i], fill), size),
                    size,
                    little,
                )
        },
{
    let n = xs.len();
    lemma_pow256_values();
    lemma_le_roundtrip_exact(minbits, 4);
    lemma_le_roundtrip_exact(word(m, 8), 8);
    assert(data.skip(21) =~= data.subrange(21, data.len() as int));
    let vals = Seq::new(n, |i: int| so_integer(data, cd, i));
    assert forall|i: int| 0 <= i < n implies vals[i] == word(
        or_fill(#[trigger] xs[i], fill),
        size,
    ) by {
        lemma_raw(data, xs, m, minbits, fill is Some, i);
        match xs[i] {
            Some(v) => {
                lemma_cut_word((v - m) as nat, m, size);
            },
            None => {
                lemma_pow256_pos(size);
                lemma_small_mod(word(fill->0, size), pow256(size));
            },
        }
    }
    lemma_numbers_bytes_len(vals, size, little);
    let out = numbers_bytes(vals, size, little);
    assert forall|i: int| 0 <= i < n implies out.subrange(i * size, i * size + size)
        == number_bytes(word(or_fill(#[trigger] xs[i], fill), size), size, little) by {
        lemma_numbers_at(vals, size, little, i);
    }
}

/// Numbers scaled by a power of ten are handed out as they were packed: the smallest one, the
/// power of ten, and the difference of every element or the fill value where it is missing.
pub proof fn lemma_decimal_offsets(
    data: Seq<u8>,
    cd: Seq<u32>,
    xs: Seq<Option<int>>,
    m: int,
    minbits: nat,
    size: nat,
    little: bool,
    fill: Option<int>,
    factor: i32,
    r: FormatResult<Unscaled>,
)
    requires
        offset_parameters(cd, xs.len(), size, little, fill),
        cd[3] == SO_CLS_FLOAT,
        cd[0] == SO_FLOAT_DSCALE,
        size == 4 || size == 8,
        cd[1] == word(factor as int, 4),
        minbits < 8 * size,
        fits_word(m, 8),
        offset_header(data, minbits, m),
        offsets_packed(data, xs, m, minbits),
        offsets_fit(xs, m, minbits, fill is Some),
        so_result(data, cd, r),
    ensures
        r matches Ok(Unscaled::Decimal(d)) && {
            &&& d.size == size
            &&& d.little == little
            &&& d.scale_factor == factor
            &&& d.minimum == word(m, 8)
            &&& d.elements@.len() == xs.len()
            &&& forall|i: int|
                0 <= i < xs.len() ==> match #[trigger] xs[i] {
                    Some(v) => d.elements@[i] == Scaled::Difference((v - m) as u64),
                    None => d.elements@[i] == Scaled::Fill(word(fill->0, size) as u64),
                }
        },
{
    let n = xs.len();
    lemma_pow256_values();
    lemma_le_roundtrip_exact(minbits, 4);
    lemma_le_roundtrip_exact(word(m, 8), 8);
    assert(data.skip(21) =~= data.subrange(21, data.len() as int));
    assert forall|i: int| 0 <= i < n implies match #[trigger] xs[i] {
        Some(v) => so_scaled(data, cd, i) == Scaled::Difference((v - m) as u64),
        None => so_scaled(data, cd, i) == Scaled::Fill(word(fill->0, size) as u64),
    } by {
        lemma_raw(data, xs, m, minbits, fill is Some, i);
        if xs[i] is None {
            lemma_pow256_pos(size);
            lemma_small_mod(word(fill->0, size), pow256(size));
        }
    }
}

/// A chunk in full precision holds the elements as they are, behind the header.
pub proof fn lemma_full_precision_copied(
    data: Seq<u8>,
    cd: Seq<u32>,
    elements: Seq<u8>,
    size: nat,
    n: nat,
    minbits: nat,
    m: int,
    r: FormatResult<Unscaled>,
)
    requires
        offset_parameters(cd, n, size, cd[6] == 0, None),
        cd[3] == SO_CLS_INTEGER,
        fits_word(m, 8),
        offset_header(data, minbits, m),
        minbits == 8 * size,
        elements.len() == n * size,
        data.len() >= 21 + elements.len(),
        data.subrange(21, (21 + elements.len()) as int) == elements,
        so_result(data, cd, r),
    ensures
        r matches Ok(Unscaled::Bytes(out)) && out@ == elements,
{
    lemma_pow256_values();
    lemma_le_roundtrip_exact(minbits, 4);
}

} // verus!
