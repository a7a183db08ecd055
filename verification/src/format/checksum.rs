//! The metadata checksum: Bob Jenkins' `lookup3` hash.

use crate::format::bytes::{filled, le_value, lemma_pow256_values, read_le_at};
use vstd::prelude::*;
use vstd::slice::slice_subrange;

verus! {

/// The three words that the hash mixes.
#[derive(Debug, Clone, Copy, PartialEq, Eq, Structural)]
pub struct HashState {
    pub a: u32,
    pub b: u32,
    pub c: u32,
}

/// `x` rotated left by `k` bits.
fn rotated(x: u32, k: u32) -> u32
    requires
        0 < k < 32,
    returns
        (x << k) | (x >> ((32 - k) as u32)),
{
    (x << k) | (x >> (32 - k))
}

/// The word at byte `i`.
pub open spec fn word(s: Seq<u8>, i: int) -> u32 {
    le_value(s.subrange(i, i + 4)) as u32
}

/// The state after three words were added to it.
pub open spec fn absorbed(st: HashState, s: Seq<u8>) -> HashState {
    HashState {
        a: st.a.wrapping_add(word(s, 0)),
        b: st.b.wrapping_add(word(s, 4)),
        c: st.c.wrapping_add(word(s, 8)),
    }
}

/// One step of a round: subtract, mix with a rotated word, add.
pub open spec fn mix_step(x: u32, y: u32, z: u32, k: u32) -> (u32, u32) {
    (x.wrapping_sub(z) ^ ((z << k) | (z >> ((32 - k) as u32))), z.wrapping_add(y))
}

/// Mix the state between blocks.
pub open spec fn mixed(st: HashState) -> HashState {
    let (a, c) = mix_step(st.a, st.b, st.c, 4);
    let (b, a) = mix_step(st.b, c, a, 6);
    let (c, b) = mix_step(c, a, b, 8);
    let (a, c) = mix_step(a, b, c, 16);
    let (b, a) = mix_step(b, c, a, 19);
    let (c, b) = mix_step(c, a, b, 4);
    HashState { a, b, c }
}

/// One step at the end: mix with a rotated word and subtract it.
pub open spec fn finish_step(x: u32, y: u32, k: u32) -> u32 {
    (x ^ y).wrapping_sub((y << k) | (y >> ((32 - k) as u32)))
}

/// The hash of a state.
pub open spec fn finished(st: HashState) -> u32 {
    let c = finish_step(st.c, st.b, 14);
    let a = finish_step(st.a, c, 11);
    let b = finish_step(st.b, a, 25);
    let c = finish_step(c, b, 16);
    let a = finish_step(a, c, 4);
    let b = finish_step(b, a, 14);
    finish_step(c, b, 24)
}

/// The hash of `s`, read from a state: blocks of twelve bytes, the last one
/// filled up with zero bytes.
pub open spec fn hashed(st: HashState, s: Seq<u8>) -> u32
    decreases s.len(),
{
    if s.len() > 12 {
        hashed(mixed(absorbed(st, s.take(12))), s.skip(12))
    } else if s.len() == 0 {
        st.c
    } else {
        finished(absorbed(st, s + Seq::new((12 - s.len()) as nat, |i: int| 0u8)))
    }
}

/// The checksum of metadata.
pub open spec fn checksum(s: Seq<u8>) -> u32 {
    let seed = 0xdead_beefu32.wrapping_add((s.len() % 0x1_0000_0000) as u32);
    hashed(HashState { a: seed, b: seed, c: seed }, s)
}

fn absorb(st: HashState, block: &[u8]) -> (r: HashState)
    requires
        block@.len() == 12,
    ensures
        r == absorbed(st, block@),
{
    proof {
        lemma_pow256_values();
    }
    HashState {
        a: st.a.wrapping_add(read_le_at(block, 0, 4) as u32),
        b: st.b.wrapping_add(read_le_at(block, 4, 4) as u32),
        c: st.c.wrapping_add(read_le_at(block, 8, 4) as u32),
    }
}

fn step(x: u32, y: u32, z: u32, k: u32) -> (r: (u32, u32))
    requires
        0 < k < 32,
    ensures
        r == mix_step(x, y, z, k),
{
    (x.wrapping_sub(z) ^ rotated(z, k), z.wrapping_add(y))
}

fn mix(st: HashState) -> (r: HashState)
    ensures
        r == mixed(st),
{
    let (a, c) = step(st.a, st.b, st.c, 4);
    let (b, a) = step(st.b, c, a, 6);
    let (c, b) = step(c, a, b, 8);
    let (a, c) = step(a, b, c, 16);
    let (b, a) = step(b, c, a, 19);
    let (c, b) = step(c, a, b, 4);
    HashState { a, b, c }
}

fn end_step(x: u32, y: u32, k: u32) -> (r: u32)
    requires
        0 < k < 32,
    ensures
        r == finish_step(x, y, k),
{
    (x ^ y).wrapping_sub(rotated(y, k))
}

fn finish(st: HashState) -> (r: u32)
    ensures
        r == finished(st),
{
    let c: u32 = end_step(st.c, st.b, 14);
    let a: u32 = end_step(st.a, c, 11);
    let b: u32 = end_step(st.b, a, 25);
    let c: u32 = end_step(c, b, 16);
    let a: u32 = end_step(a, c, 4);
    let b: u32 = end_step(b, a, 14);
    end_step(c, b, 24)
}

/// The checksum of metadata.
pub fn checksum_metadata(data: &[u8]) -> (r: u32)
    ensures
        r == checksum(data@),
{
    let n: usize = data.len();
    let seed: u32 = 0xdead_beefu32.wrapping_add((n as u64 % 0x1_0000_0000) as u32);
    let mut st = HashState { a: seed, b: seed, c: seed };
    let mut pos: usize = 0;
    assert(data@.skip(0) =~= data@);
    while n - pos > 12
        invariant
            n == data@.len(),
            pos <= n,
            hashed(st, data@.skip(pos as int)) == checksum(data@),
        decreases n - pos,
    {
        let block = slice_subrange(data, pos, pos + 12);
        proof {
            let rest = data@.skip(pos as int);
            assert(rest.take(12) =~= block@);
            assert(rest.skip(12) =~= data@.skip(pos + 12));
        }
        st = mix(absorb(st, block));
        pos = pos + 12;
    }
    if pos == n {
        return st.c;
    }
    let mut last: Vec<u8> = filled(12, 0);
    let mut i: usize = 0;
    while i < n - pos
        invariant
            n == data@.len(),
            pos <= n,
            i <= n - pos <= 12,
            last@.len() == 12,
            forall|k: int| 0 <= k < i ==> last@[k] == data@[pos + k],
            forall|k: int| i <= k < 12 ==> last@[k] == 0u8,
        decreases n - pos - i,
    {
        last.set(i, data[pos + i]);
        i = i + 1;
    }
    proof {
        let rest = data@.skip(pos as int);
        assert(last@ =~= rest + Seq::new((12 - rest.len()) as nat, |i: int| 0u8));
    }
    finish(absorb(st, last.as_slice()))
}

} // verus!
