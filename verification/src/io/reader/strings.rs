//! Reading datasets of strings of any length.

use crate::format::bytes::{joined, lemma_joined_len, lemma_joined_uniform, pow256};
use crate::format::global_heap::{
    decode_vlen_reference, lemma_reference_roundtrip, object_value, reference_at, reference_size,
    vlen_reference_size, HeapObject,
};
use crate::format::{FormatContext, UNDEF_ADDR};
use crate::io::array::volume;
use crate::io::reader::catalog::{heap_string, heap_text};
use crate::io::reader::chunked::{saturating_count, smaller};
use crate::io::writer::catalog::texts;
use crate::io::writer::vlen::{references, string_reference};
use std::collections::HashMap;
use vstd::arithmetic::div_mod::{lemma_fundamental_div_mod, lemma_mod_bound};
use vstd::prelude::*;
use vstd::slice::slice_subrange;
use vstd::utf8::encode_utf8;

verus! {

broadcast use vstd::std_specs::hash::group_hash_axioms;

/// The strings of a dataset, or the heap that has to be read first.
#[derive(Debug)]
pub struct StringsFound {
    /// The strings.
    pub strings: Vec<String>,
    /// Address of the heap that is missing.
    pub need: Option<u64>,
}

/// The strings of a dataset, or the heap that has to be read first.
#[verifier::ext_equal]
pub struct StringsView {
    pub strings: Seq<Seq<char>>,
    pub need: Option<u64>,
}

impl View for StringsFound {
    type V = StringsView;

    open spec fn view(&self) -> StringsView {
        StringsView { strings: texts(self.strings@), need: self.need }
    }
}

/// Reference `i` of a dataset.
pub open spec fn reference_of(raw: Seq<u8>, ctx: FormatContext, i: int) -> (u32, u64, u32) {
    let n = reference_size(ctx);
    reference_at(raw.subrange(i * n, i * n + n), ctx)
}

/// The heap at an address; nothing if the bytes there are no heap.
pub open spec fn heap_at(heaps: Map<u64, Option<Vec<HeapObject>>>, addr: u64) -> Option<
    Seq<HeapObject>,
> {
    match heaps[addr] {
        Some(h) => Some(h@),
        None => None,
    }
}

/// The first `k` strings of a dataset. A reference without an address is an empty
/// string.
pub open spec fn strings_upto(
    raw: Seq<u8>,
    ctx: FormatContext,
    heaps: Map<u64, Option<Vec<HeapObject>>>,
    k: nat,
) -> StringsView
    decreases k,
{
    if k == 0 {
        StringsView { strings: Seq::empty(), need: None }
    } else {
        let g = strings_upto(raw, ctx, heaps, (k - 1) as nat);
        let (len, addr, index) = reference_of(raw, ctx, k - 1);
        if g.need is Some {
            g
        } else if addr == UNDEF_ADDR || addr == 0 {
            StringsView { strings: g.strings.push(""@), ..g }
        } else if !heaps.contains_key(addr) {
            StringsView { need: Some(addr), ..g }
        } else {
            StringsView {
                strings: g.strings.push(heap_text(heap_at(heaps, addr), index as u16)),
                ..g
            }
        }
    }
}

/// How many strings the references of a dataset give.
pub open spec fn string_count(raw: Seq<u8>, dims: Seq<u64>, ctx: FormatContext) -> nat {
    smaller(volume(dims), raw.len() / reference_size(ctx))
}

proof fn lemma_strings_stop(
    raw: Seq<u8>,
    ctx: FormatContext,
    heaps: Map<u64, Option<Vec<HeapObject>>>,
    k: nat,
    n: nat,
)
    requires
        k <= n,
        strings_upto(raw, ctx, heaps, k).need is Some,
    ensures
        strings_upto(raw, ctx, heaps, n) == strings_upto(raw, ctx, heaps, k),
    decreases n,
{
    if k < n {
        lemma_strings_stop(raw, ctx, heaps, k, (n - 1) as nat);
    }
}

/// Read the strings of a dataset. `raw` are its references, `heaps` the heaps that have
/// been read so far; bytes that are no heap have no objects.
pub fn read_vlen_strings(
    raw: &[u8],
    dims: &[u64],
    ctx: &FormatContext,
    heaps: &HashMap<u64, Option<Vec<HeapObject>>>,
) -> (r: StringsFound)
    requires
        ctx.sizeof_addr <= 8,
    ensures
        r@ == strings_upto(raw@, *ctx, heaps@, string_count(raw@, dims@, *ctx)),
{
    let size: usize = vlen_reference_size(ctx);
    let len: usize = raw.len();
    let all: u64 = saturating_count(dims);
    let fit: usize = len / size;
    let n: usize = if all < fit as u64 {
        all as usize
    } else {
        fit
    };
    proof {
        lemma_fundamental_div_mod(len as int, size as int);
        lemma_mod_bound(len as int, size as int);
        assert(n == string_count(raw@, dims@, *ctx));
    }
    let mut found = StringsFound { strings: Vec::new(), need: None };
    let mut i: usize = 0;
    assert(found@.strings =~= Seq::<Seq<char>>::empty());
    while i < n
        invariant
            i <= n,
            n <= fit,
            ctx.sizeof_addr <= 8,
            size == reference_size(*ctx),
            len == raw@.len(),
            size * fit <= len,
            n == string_count(raw@, dims@, *ctx),
            found.need is None,
            found@ == strings_upto(raw@, *ctx, heaps@, i as nat),
        decreases n - i,
    {
        proof {
            let a = i as int;
            let s = size as int;
            let f = fit as int;
            assert(0 <= a * s && a * s + s <= s * f) by (nonlinear_arith)
                requires
                    0 <= a,
                    a + 1 <= f,
                    s > 0,
            ;
        }
        let part = slice_subrange(raw, i * size, i * size + size);
        let ghost before = found@;
        match decode_vlen_reference(part, ctx) {
            Err(_) => {
                assert(false);
            },
            Ok(v) => {
                let addr: u64 = v.1;
                let index: u32 = v.2;
                assert(v == reference_of(raw@, *ctx, i as int));
                if addr == UNDEF_ADDR || addr == 0 {
                    found.strings.push("".to_owned());
                    assert(found@.strings =~= before.strings.push(""@));
                } else {
                    match heaps.get(&addr) {
                        None => {
                            found.need = Some(addr);
                            proof {
                                lemma_strings_stop(
                                    raw@,
                                    *ctx,
                                    heaps@,
                                    (i + 1) as nat,
                                    n as nat,
                                );
                            }
                            return found;
                        },
                        Some(None) => {
                            let s = heap_string(None, 0);
                            found.strings.push(s);
                            assert(found@.strings =~= before.strings.push(s@));
                        },
                        Some(Some(h)) => {
                            let s = heap_string(
                                Some(h),
                                #[verifier::truncate]
                                (index as u16),
                            );
                            found.strings.push(s);
                            assert(found@.strings =~= before.strings.push(s@));
                        },
                    }
                }
            },
        }
        i = i + 1;
    }
    found
}

/// Strings that were written read back: `raw` are the references to the strings, and
/// the heap holds each string under its number.
pub proof fn lemma_strings_read_back(
    strings: Seq<Seq<char>>,
    indices: Seq<u16>,
    addr: u64,
    ctx: FormatContext,
    heaps: Map<u64, Option<Vec<HeapObject>>>,
)
    requires
        ctx.sizeof_addr <= 8,
        addr < pow256(ctx.sizeof_addr as nat),
        addr != 0,
        addr != UNDEF_ADDR,
        indices.len() == strings.len(),
        strings.len() <= u64::MAX,
        heaps.contains_key(addr),
        heaps[addr] matches Some(h) && forall|i: int|
            0 <= i < strings.len() ==> object_value(h@, #[trigger] indices[i], h@.len())
                == encode_utf8(strings[i]),
    ensures
        ({
            let raw = references(strings, indices, addr, ctx);
            strings_upto(raw, ctx, heaps, string_count(raw, seq![strings.len() as u64], ctx)) == (
            StringsView { strings, need: None })
        }),
{
    let raw = references(strings, indices, addr, ctx);
    let n = reference_size(ctx);
    let items = Seq::new(
        strings.len(),
        |i: int| string_reference(strings, indices, addr, ctx, i),
    );
    assert forall|k: int| 0 <= k < items.len() implies (#[trigger] items[k]).len() == n by {
        lemma_reference_roundtrip(
            (encode_utf8(strings[k]).len() as usize) as u32,
            addr,
            indices[k] as u32,
            ctx,
        );
    }
    lemma_joined_len(items, n);
    let dims = seq![strings.len() as u64];
    assert(volume(dims) == strings.len()) by {
        reveal_with_fuel(volume, 2);
        assert(dims.drop_last() =~= Seq::<u64>::empty());
        assert(1 * dims.last() == strings.len());
    }
    vstd::arithmetic::div_mod::lemma_div_multiples_vanish(strings.len() as int, n as int);
    assert(strings.len() * n == n * strings.len()) by (nonlinear_arith);
    lemma_strings_upto(strings, indices, addr, ctx, heaps, strings.len());
    assert(strings.take(strings.len() as int) =~= strings);
}

proof fn lemma_strings_upto(
    strings: Seq<Seq<char>>,
    indices: Seq<u16>,
    addr: u64,
    ctx: FormatContext,
    heaps: Map<u64, Option<Vec<HeapObject>>>,
    k: nat,
)
    requires
        ctx.sizeof_addr <= 8,
        addr < pow256(ctx.sizeof_addr as nat),
        addr != 0,
        addr != UNDEF_ADDR,
        indices.len() == strings.len(),
        heaps.contains_key(addr),
        heaps[addr] matches Some(h) && forall|i: int|
            0 <= i < strings.len() ==> object_value(h@, #[trigger] indices[i], h@.len())
                == encode_utf8(strings[i]),
        k <= strings.len(),
    ensures
        strings_upto(references(strings, indices, addr, ctx), ctx, heaps, k) == (StringsView {
            strings: strings.take(k as int),
            need: None,
        }),
    decreases k,
{
    broadcast use vstd::utf8::encode_utf8_valid_utf8, vstd::utf8::encode_utf8_decode_utf8;

    let raw = references(strings, indices, addr, ctx);
    if k == 0 {
        assert(strings.take(0) =~= Seq::<Seq<char>>::empty());
    } else {
        let i = k - 1;
        lemma_strings_upto(strings, indices, addr, ctx, heaps, i as nat);
        let n = reference_size(ctx);
        let items = Seq::new(
            strings.len(),
            |i: int| string_reference(strings, indices, addr, ctx, i),
        );
        assert forall|j: int| 0 <= j < items.len() implies (#[trigger] items[j]).len() == n by {
            lemma_reference_roundtrip(
                (encode_utf8(strings[j]).len() as usize) as u32,
                addr,
                indices[j] as u32,
                ctx,
            );
        }
        lemma_joined_uniform(items, n, i);
        assert(raw == joined(items));
        lemma_reference_roundtrip(
            (encode_utf8(strings[i]).len() as usize) as u32,
            addr,
            indices[i] as u32,
            ctx,
        );
        assert(raw.subrange(i * n, i * n + n) == items[i]);
        let (len, a, index) = reference_of(raw, ctx, i);
        assert(a == addr && index == indices[i]);
        assert(index as u16 == indices[i]);
        assert(strings.take(k as int) =~= strings.take(i).push(strings[i]));
    }
}

} // verus!
