//! Decoding gives back what was encoded.

use crate::format::bitstream::{
    advance, bits_of, fs_code, fs_end, fs_length, lemma_bits_of_len, lemma_pow2_le32,
    lemma_read_bits_of, lemma_read_fs, read_bits,
};
use crate::format::szip::coding::{
    all_zero, coded_samples, decode_highs, decode_lows, decode_pairs, has_total, high_codes,
    join_parts, lemma_decode_block_len, lemma_small_mod_zero, low_bits, pair_codes, pair_first,
    pair_second, run_fs, top_id, triangle, BlockCode, CodeParams, CoderState, SE_TABLE_SIZE,
};
use crate::format::szip::decoder::lemma_total_unique;
use crate::format::szip::options::{high_part, lemma_best_split, pair_code};
use crate::format::szip::predictor::{is_mask, lemma_predictor_roundtrip};
use vstd::arithmetic::div_mod::{lemma_fundamental_div_mod, lemma_mod_bound, lemma_small_mod};
use vstd::arithmetic::power2::{lemma2_to64, lemma_pow2_pos, lemma_pow2_strictly_increases, pow2};
use vstd::bits::lemma_u32_shl_is_mul;
use vstd::prelude::*;

verus! {

/// Whether the stream `s` holds `bits` at position `p`.
pub open spec fn holds(s: Seq<bool>, p: int, bits: Seq<bool>) -> bool {
    &&& 0 <= p
    &&& p + bits.len() <= s.len()
    &&& s.subrange(p, p + bits.len()) == bits
}

proof fn lemma_holds_split(s: Seq<bool>, p: int, a: Seq<bool>, b: Seq<bool>)
    requires
        holds(s, p, a + b),
    ensures
        holds(s, p, a),
        holds(s, p + a.len(), b),
{
    let w = s.subrange(p, p + (a + b).len());
    assert(s.subrange(p, p + a.len()) =~= w.subrange(0, a.len() as int));
    assert(w.subrange(0, a.len() as int) =~= a);
    assert(s.subrange(p + a.len(), p + a.len() + b.len()) =~= w.subrange(
        a.len() as int,
        (a + b).len() as int,
    ));
    assert(w.subrange(a.len() as int, (a + b).len() as int) =~= b);
}

/// A number written with `n` bits is read back modulo `2^n`.
proof fn lemma_number(s: Seq<bool>, p: int, x: nat, n: nat)
    requires
        holds(s, p, bits_of(x, n)),
    ensures
        read_bits(s, p, n) == x % pow2(n),
        advance(s, p, n) == p + n,
        bits_of(x, n).len() == n,
{
    lemma_bits_of_len(x, n);
    lemma_read_bits_of(s, p, x, n);
}

/// A fundamental sequence is read back.
proof fn lemma_fs(s: Seq<bool>, p: int, n: nat)
    requires
        holds(s, p, fs_code(n)),
    ensures
        fs_length(s, p) == n,
        fs_end(s, p) == p + n + 1,
        fs_code(n).len() == n + 1,
{
    lemma_read_fs(s, p, n);
}

proof fn lemma_highs(s: Seq<bool>, p: int, v: Seq<u32>, k: nat)
    requires
        holds(s, p, high_codes(v, k)),
    ensures
        decode_highs(s, p, v.len()).1 == p + high_codes(v, k).len(),
        decode_highs(s, p, v.len()).0 == Seq::new(v.len(), |i: int| high_part(v[i], k)),
    decreases v.len(),
{
    let want = Seq::new(v.len(), |i: int| high_part(v[i], k));
    if v.len() > 0 {
        let u = v.drop_last();
        let code = fs_code(high_part(v.last(), k));
        lemma_holds_split(s, p, high_codes(u, k), code);
        lemma_highs(s, p, u, k);
        lemma_fs(s, p + high_codes(u, k).len(), high_part(v.last(), k));
        assert(decode_highs(s, p, v.len()).0 =~= want);
    } else {
        assert(decode_highs(s, p, 0).0 =~= want);
    }
}

proof fn lemma_lows(s: Seq<bool>, p: int, v: Seq<u32>, k: nat)
    requires
        holds(s, p, low_bits(v, k)),
    ensures
        decode_lows(s, p, v.len(), k).1 == p + low_bits(v, k).len(),
        decode_lows(s, p, v.len(), k).0 == Seq::new(
            v.len(),
            |i: int| (v[i] as nat % pow2(k)) as u32,
        ),
    decreases v.len(),
{
    let want = Seq::new(v.len(), |i: int| (v[i] as nat % pow2(k)) as u32);
    if v.len() > 0 {
        let u = v.drop_last();
        lemma_holds_split(s, p, low_bits(u, k), bits_of(v.last() as nat, k));
        lemma_lows(s, p, u, k);
        lemma_number(s, p + low_bits(u, k).len(), v.last() as nat, k);
        assert(decode_lows(s, p, v.len(), k).0 =~= want);
    } else {
        assert(decode_lows(s, p, 0, k).0 =~= want);
    }
}

/// The number of a pair stands for it.
proof fn lemma_pair(a: u32, b: u32)
    ensures
        pair_first(pair_code(a, b)) == a,
        pair_second(pair_code(a, b)) == b,
{
    let t = (a + b) as nat;
    let m = pair_code(a, b);
    assert((t + 1) * (t + 2) == t * (t + 1) + 2 * (t + 1)) by (nonlinear_arith);
    assert(t * (t + 1) >= 0) by (nonlinear_arith);
    assert(triangle(t) + b == m);
    assert(has_total(m, t));
    lemma_total_unique(m, t);
}

/// Whether a decoder knows the numbers of all pairs of `block`.
pub open spec fn pairs_in_table(block: Seq<u32>) -> bool {
    forall|i: int|
        0 <= i < block.len() / 2 ==> #[trigger] pair_code(block[2 * i], block[2 * i + 1])
            <= SE_TABLE_SIZE
}

proof fn lemma_pairs(s: Seq<bool>, p: int, block: Seq<u32>, n: nat)
    requires
        n <= block.len() / 2,
        pairs_in_table(block),
        holds(s, p, pair_codes(block, n)),
    ensures
        decode_pairs(s, p, n) == Some(
            (block.take(2 * n as int), p + pair_codes(block, n).len()),
        ),
    decreases n,
{
    if n == 0 {
        assert(block.take(0) =~= Seq::<u32>::empty());
    } else {
        let m = (n - 1) as nat;
        let a = block[2 * n - 2];
        let b = block[2 * n - 1];
        lemma_holds_split(s, p, pair_codes(block, m), fs_code(pair_code(a, b)));
        lemma_pairs(s, p, block, m);
        lemma_fs(s, p + pair_codes(block, m).len(), pair_code(a, b));
        lemma_pair(a, b);
        assert(2 * m as int == 2 * n - 2);
        assert(pair_code(block[2 * m as int], block[2 * m as int + 1]) <= SE_TABLE_SIZE);
        assert(block.take(2 * n as int) =~= block.take(2 * m as int).push(a).push(b));
    }
}

/// A sample is its high part and its low bits.
proof fn lemma_join(x: u32, k: nat)
    requires
        k < 32,
    ensures
        join_parts(high_part(x, k), (x as nat % pow2(k)) as u32, k) == x,
{
    lemma_pow2_pos(k);
    lemma_fundamental_div_mod(x as int, pow2(k) as int);
    lemma_mod_bound(x as int, pow2(k) as int);
    lemma_pow2_le32(k);
    let h = high_part(x, k);
    let l = x as nat % pow2(k);
    assert(h * pow2(k) == pow2(k) * h) by (nonlinear_arith);
    assert(h <= x) by (nonlinear_arith)
        requires
            h * pow2(k) + l == x,
            pow2(k) >= 1,
            h >= 0,
            l >= 0,
    ;
    lemma_u32_shl_is_mul(h as u32, k as u32);
}

/// The identifiers of a code are distinct numbers of `id_len` bits.
proof fn lemma_ids(c: CodeParams, id: nat)
    requires
        c.wf(),
        id <= top_id(c.id_len),
    ensures
        id % pow2(c.id_len) == id,
        top_id(c.id_len) < pow2(c.id_len),
        c.kmax() + 2 == top_id(c.id_len),
        c.kmax() < 32,
{
    lemma2_to64();
    lemma_small_mod(id, pow2(c.id_len));
}

/// What a block stands for in an interval: its samples, the reference in the
/// place of the first where it has one.
pub open spec fn block_samples(has_ref: bool, reference: u32, block: Seq<u32>) -> Seq<u32> {
    if has_ref {
        block.update(0, reference)
    } else {
        block
    }
}

/// Whether a block coded as `code` can be decoded.
pub open spec fn decodable(c: CodeParams, code: BlockCode, block: Seq<u32>) -> bool {
    match code {
        BlockCode::Split { k } => k <= c.kmax(),
        BlockCode::Pairs => pairs_in_table(block),
        BlockCode::Raw => true,
    }
}

proof fn lemma_ref(c: CodeParams, s: Seq<bool>, p: int, has_ref: bool, reference: u32)
    requires
        c.wf(),
        reference < pow2(c.bits),
        holds(s, p, c.ref_bits(has_ref, reference)),
    ensures
        has_ref ==> read_bits(s, p, c.bits) == reference,
        has_ref ==> advance(s, p, c.bits) == p + c.ref_bits(has_ref, reference).len(),
        !has_ref ==> c.ref_bits(has_ref, reference).len() == 0,
{
    if has_ref {
        lemma_number(s, p, reference as nat, c.bits);
        lemma_small_mod(reference as nat, pow2(c.bits));
    }
}

/// A block's code is decoded to the block.
proof fn lemma_block(
    c: CodeParams,
    s: Seq<bool>,
    p: int,
    buf: Seq<u32>,
    code: BlockCode,
    has_ref: bool,
    reference: u32,
    block: Seq<u32>,
)
    requires
        c.wf(),
        block.len() == c.block,
        has_ref == (c.preprocess && buf.len() == 0),
        has_ref ==> block[0] == 0,
        reference < pow2(c.bits),
        forall|i: int| 0 <= i < block.len() ==> block[i] < pow2(c.bits),
        decodable(c, code, block),
        holds(s, p, c.block_bits(code, has_ref, reference, block)),
    ensures
        c.decode_block(s, p, buf) == Some(
            (
                buf + block_samples(has_ref, reference, block),
                p + c.block_bits(code, has_ref, reference, block).len(),
            ),
        ),
{
    let v = coded_samples(has_ref, block);
    let target = buf + block_samples(has_ref, reference, block);
    lemma_pow2_pos(c.bits);
    lemma_pow2_le32(c.bits);
    match code {
        BlockCode::Split { k } => {
            let id = bits_of(k + 1, c.id_len);
            let rf = c.ref_bits(has_ref, reference);
            let highs = high_codes(v, k);
            let lows = low_bits(v, k);
            lemma_holds_split(s, p, id + rf + highs, lows);
            lemma_holds_split(s, p, id + rf, highs);
            lemma_holds_split(s, p, id, rf);
            lemma_ids(c, k + 1);
            lemma_number(s, p, k + 1, c.id_len);
            lemma_ref(c, s, p + id.len(), has_ref, reference);
            lemma_highs(s, p + id.len() + rf.len(), v, k);
            lemma_lows(s, p + id.len() + rf.len() + highs.len(), v, k);
            let n = v.len();
            let joined = Seq::new(
                n,
                |i: int|
                    join_parts(
                        decode_highs(s, p + id.len() + rf.len(), n).0[i],
                        decode_lows(s, p + id.len() + rf.len() + highs.len(), n, k).0[i],
                        k,
                    ),
            );
            assert forall|i: int| 0 <= i < n implies joined[i] == v[i] by {
                lemma_join(v[i], k);
            }
            let buf2 = if has_ref {
                buf.push(reference)
            } else {
                buf
            };
            assert(joined =~= v);
            assert(buf2 + v =~= target);
        },
        BlockCode::Pairs => {
            let id = bits_of(1, c.id_len + 1);
            let rf = c.ref_bits(has_ref, reference);
            let pairs = pair_codes(block, block.len() / 2);
            lemma_holds_split(s, p, id + rf, pairs);
            lemma_holds_split(s, p, id, rf);
            lemma_low_entropy(c, s, p, 1);
            lemma_ref(c, s, p + id.len(), has_ref, reference);
            lemma_pairs(s, p + id.len() + rf.len(), block, block.len() / 2);
            assert(block.take(2 * (block.len() / 2) as int) =~= block);
            let buf2 = if has_ref {
                buf.push(reference)
            } else {
                buf
            };
            if has_ref {
                assert(buf2 + block.drop_first() =~= target);
            } else {
                assert(buf2 + block =~= target);
            }
        },
        BlockCode::Raw => {
            let id = bits_of(top_id(c.id_len), c.id_len);
            let w = block_samples(has_ref, reference, block);
            lemma_holds_split(s, p, id, low_bits(w, c.bits));
            lemma_ids(c, top_id(c.id_len));
            lemma_number(s, p, top_id(c.id_len), c.id_len);
            lemma_lows(s, p + id.len(), w, c.bits);
            let read = decode_lows(s, p + id.len(), c.block, c.bits).0;
            assert forall|i: int| 0 <= i < w.len() implies read[i] == w[i] by {
                lemma_small_mod(w[i] as nat, pow2(c.bits));
            }
            assert(read =~= w);
        },
    }
}

/// The identifier of a low-entropy block and the bit behind it.
proof fn lemma_low_entropy(c: CodeParams, s: Seq<bool>, p: int, bit: nat)
    requires
        c.wf(),
        bit <= 1,
        holds(s, p, bits_of(bit, c.id_len + 1)),
    ensures
        read_bits(s, p, c.id_len) == 0,
        advance(s, p, c.id_len) == p + c.id_len,
        read_bits(s, p + c.id_len, 1) == bit,
        advance(s, p + c.id_len, 1) == p + c.id_len + 1,
        bits_of(bit, c.id_len + 1).len() == c.id_len + 1,
{
    let all = bits_of(bit, c.id_len + 1);
    let head = bits_of(0, c.id_len);
    lemma_bits_of_len(bit, c.id_len + 1);
    lemma_bits_of_len(0, c.id_len);
    let tail = bits_of(bit, 1);
    reveal_with_fuel(bits_of, 2);
    assert(all =~= head + tail);
    lemma_holds_split(s, p, head, tail);
    lemma_number(s, p, 0, c.id_len);
    lemma_number(s, p + c.id_len, bit, 1);
    lemma_pow2_pos(c.id_len);
    lemma_small_mod(0, pow2(c.id_len));
    lemma2_to64();
}

/// `n` zero samples, the reference in the place of the first where there is one.
pub open spec fn zero_block_samples(has_ref: bool, reference: u32, n: nat) -> Seq<u32> {
    block_samples(has_ref, reference, Seq::new(n, |i: int| 0u32))
}

/// The code of a run of all-zero blocks is decoded to the run.
proof fn lemma_zero_run(
    c: CodeParams,
    s: Seq<bool>,
    p: int,
    buf: Seq<u32>,
    has_ref: bool,
    reference: u32,
    fs: nat,
    first: nat,
    run: nat,
)
    requires
        c.wf(),
        run >= 1,
        first + run <= c.rsi,
        buf.len() == first * c.block,
        has_ref == (c.preprocess && buf.len() == 0),
        reference < pow2(c.bits),
        fs == 4 ==> run == (if c.rsi - first <= 64 - first % 64 {
            c.rsi - first
        } else {
            64 - first % 64
        }),
        fs > 4 ==> run == fs,
        fs < 4 ==> run == fs + 1,
        holds(s, p, c.zero_bits(has_ref, reference, fs)),
    ensures
        c.decode_block(s, p, buf) == Some(
            (
                buf + zero_block_samples(has_ref, reference, run * c.block),
                p + c.zero_bits(has_ref, reference, fs).len(),
            ),
        ),
{
    let d = c.block;
    let id = bits_of(0, c.id_len + 1);
    let rf = c.ref_bits(has_ref, reference);
    lemma_holds_split(s, p, id + rf, fs_code(fs));
    lemma_holds_split(s, p, id, rf);
    lemma_low_entropy(c, s, p, 0);
    lemma_ref(c, s, p + id.len(), has_ref, reference);
    lemma_fs(s, p + id.len() + rf.len(), fs);
    lemma_ids(c, 0);
    let buf2 = if has_ref {
        buf.push(reference)
    } else {
        buf
    };
    let have = buf2.len();
    assert(have / d == first) by {
        if has_ref {
            assert(first == 0) by (nonlinear_arith)
                requires
                    first * d == 0,
                    d >= 2,
            ;
            assert(1nat / d == 0) by (nonlinear_arith)
                requires
                    d >= 2,
            ;
        } else {
            assert((first * d) / d == first) by (nonlinear_arith)
                requires
                    d >= 2,
            ;
        }
    }
    assert(run * d >= d) by (nonlinear_arith)
        requires
            run >= 1,
    ;
    assert(first * d + run * d <= c.rsi * d) by (nonlinear_arith)
        requires
            first + run <= c.rsi,
    ;
    let skip = if has_ref {
        1int
    } else {
        0int
    };
    assert(c.zero_samples(fs, has_ref, have) == run * d - skip);
    let zeros = Seq::new((run * d - skip) as nat, |i: int| 0u32);
    assert(buf2 + zeros =~= buf + zero_block_samples(has_ref, reference, run * d));
}

/// What an interval is decoded to: its residuals, the first sample in the place
/// of the first residual.
pub open spec fn interval_target(c: CodeParams, raw: Seq<u32>) -> Seq<u32> {
    block_samples(c.preprocess, raw[0], c.residuals(raw))
}

/// Whether every block of an interval can be decoded.
pub open spec fn interval_decodable(c: CodeParams, raw: Seq<u32>, start: CoderState) -> bool {
    forall|b: nat|
        b < c.rsi ==> #[trigger] block_decodable(
            c,
            c.interval_state(raw, start, b, c.rsi),
            c.block_at(c.residuals(raw), b as int),
            b,
        )
}

/// Whether block `b`, coded from state `st`, can be decoded.
pub open spec fn block_decodable(c: CodeParams, st: CoderState, block: Seq<u32>, b: nat) -> bool {
    all_zero(block) || (c.choice(c.preprocess && b == 0, block, st.prev_k) is Pairs
        ==> pairs_in_table(block))
}

/// The residuals of an interval and its first sample fit in a sample.
pub open spec fn interval_fits(c: CodeParams, raw: Seq<u32>) -> bool {
    &&& raw.len() == c.interval()
    &&& raw[0] < pow2(c.bits)
    &&& c.preprocess ==> c.residuals(raw)[0] == 0
    &&& forall|i: int| 0 <= i < raw.len() ==> c.residuals(raw)[i] < pow2(c.bits)
}

/// What is known of a pending run of all-zero blocks.
spec fn run_ok(c: CodeParams, raw: Seq<u32>, st: CoderState, b: nat) -> bool {
    let first = b - st.zero_run;
    &&& st.zero_run <= b
    &&& b >= c.rsi ==> st.zero_run == 0
    &&& st.zero_run > 0 ==> {
        &&& st.zero_ref == (c.preprocess && first == 0)
        &&& first / 64 == (b - 1) / 64
        &&& b % 64 != 0
    }
    &&& forall|i: int|
        first * c.block <= i < b * c.block ==> #[trigger] c.residuals(raw)[i] == 0
}

/// Decoding a run of all-zero blocks takes an interval from the block it
/// begins with to the block behind it.
proof fn lemma_run_step(
    c: CodeParams,
    s: Seq<bool>,
    p: int,
    raw: Seq<u32>,
    fs: nat,
    first: nat,
    run: nat,
)
    requires
        c.wf(),
        interval_fits(c, raw),
        run >= 1,
        first + run <= c.rsi,
        fs == 4 ==> run == (if c.rsi - first <= 64 - first % 64 {
            c.rsi - first
        } else {
            64 - first % 64
        }),
        fs > 4 ==> run == fs,
        fs < 4 ==> run == fs + 1,
        forall|i: int|
            first * c.block <= i < (first + run) * c.block ==> #[trigger] c.residuals(raw)[i] == 0,
        c.aligned(first * c.block),
        holds(s, p, c.zero_bits(c.preprocess && first == 0, raw[0], fs)),
    ensures
        c.decode_interval(s, p, interval_target(c, raw).take(first * c.block as int))
            == c.decode_interval(
            s,
            p + c.zero_bits(c.preprocess && first == 0, raw[0], fs).len(),
            interval_target(c, raw).take((first + run) * c.block as int),
        ),
        c.aligned((first + run) * c.block),
{
    let d = c.block as int;
    let target = interval_target(c, raw);
    let res = c.residuals(raw);
    let has_ref = c.preprocess && first == 0;
    assert(res.len() == raw.len());
    assert(0 <= first * d) by (nonlinear_arith)
        requires
            first >= 0,
            d > 0,
    ;
    assert((first * d == 0) == (first == 0)) by (nonlinear_arith)
        requires
            first >= 0,
            d >= 2,
    ;
    assert(first * d + run * d == (first + run) * d) by (nonlinear_arith);
    assert((first + run) * d <= c.rsi * d) by (nonlinear_arith)
        requires
            first + run <= c.rsi,
            d > 0,
    ;
    assert(run * d >= d) by (nonlinear_arith)
        requires
            run >= 1,
            d > 0,
    ;
    let known = target.take(first * d);
    let next = target.take((first + run) * d);
    lemma_zero_run(c, s, p, known, has_ref, raw[0], fs, first, run);
    let added = zero_block_samples(has_ref, raw[0], run * c.block);
    assert(known + added =~= next) by {
        assert forall|i: int| 0 <= i < next.len() implies (known + added)[i] == next[i] by {
            if i >= first * d {
                assert(res[i] == 0);
            }
        }
    }
    lemma_decode_block_len(c, s, p, known);
}

/// Decoding a block takes an interval from it to the block behind it.
proof fn lemma_block_step(
    c: CodeParams,
    s: Seq<bool>,
    p: int,
    raw: Seq<u32>,
    code: BlockCode,
    j: nat,
)
    requires
        c.wf(),
        interval_fits(c, raw),
        j < c.rsi,
        decodable(c, code, c.block_at(c.residuals(raw), j as int)),
        c.aligned(j * c.block),
        holds(
            s,
            p,
            c.block_bits(
                code,
                c.preprocess && j == 0,
                raw[0],
                c.block_at(c.residuals(raw), j as int),
            ),
        ),
    ensures
        c.decode_interval(s, p, interval_target(c, raw).take(j * c.block as int))
            == c.decode_interval(
            s,
            p + c.block_bits(
                code,
                c.preprocess && j == 0,
                raw[0],
                c.block_at(c.residuals(raw), j as int),
            ).len(),
            interval_target(c, raw).take((j + 1) * c.block as int),
        ),
        c.aligned((j + 1) * c.block),
{
    let d = c.block as int;
    let target = interval_target(c, raw);
    let res = c.residuals(raw);
    let block = c.block_at(res, j as int);
    let has_ref = c.preprocess && j == 0;
    assert(res.len() == raw.len());
    assert(j * d + d == (j + 1) * d) by (nonlinear_arith);
    assert((j + 1) * d <= c.rsi * d) by (nonlinear_arith)
        requires
            j + 1 <= c.rsi,
            d > 0,
    ;
    assert(0 <= j * d) by (nonlinear_arith)
        requires
            j >= 0,
            d >= 0,
    ;
    assert((j * d == 0) == (j == 0)) by (nonlinear_arith)
        requires
            j >= 0,
            d >= 2,
    ;
    let known = target.take(j * d);
    let next = target.take((j + 1) * d);
    assert forall|i: int| 0 <= i < block.len() implies block[i] < pow2(c.bits) by {
        assert(block[i] == res[j * d + i]);
    }
    lemma_block(c, s, p, known, code, has_ref, raw[0], block);
    let w = block_samples(has_ref, raw[0], block);
    assert(known + w =~= next) by {
        assert forall|i: int| 0 <= i < next.len() implies (known + w)[i] == next[i] by {
            if i >= j * d {
                assert(block[i - j * d] == res[i]);
            }
        }
    }
    lemma_decode_block_len(c, s, p, known);
}

/// After `b` blocks were coded, decoding from the start of the interval has
/// come to the blocks that are still pending.
spec fn prefix_ok(c: CodeParams, s: Seq<bool>, raw: Seq<u32>, start: CoderState, b: nat) -> bool {
    let st = c.interval_state(raw, start, b, c.rsi);
    let first = (b - st.zero_run) as nat;
    &&& run_ok(c, raw, st, b)
    &&& c.aligned(first * c.block)
    &&& holds(s, 0, start.bits)
    &&& c.decode_interval(s, start.bits.len() as int, Seq::empty()) == c.decode_interval(
        s,
        st.bits.len() as int,
        interval_target(c, raw).take(first * c.block as int),
    )
}

/// The step over an all-zero block.
proof fn lemma_prefix_zero(c: CodeParams, s: Seq<bool>, raw: Seq<u32>, start: CoderState, j: nat)
    requires
        c.wf(),
        interval_fits(c, raw),
        j < c.rsi,
        all_zero(c.block_at(c.residuals(raw), j as int)),
        prefix_ok(c, s, raw, start, j),
        holds(s, 0, c.interval_state(raw, start, j + 1, c.rsi).bits),
    ensures
        prefix_ok(c, s, raw, start, j + 1),
{
    let b = j + 1;
    let res = c.residuals(raw);
    let st0 = c.interval_state(raw, start, j, c.rsi);
    let st = c.interval_state(raw, start, b, c.rsi);
    let block = c.block_at(res, j as int);
    let has_ref = c.preprocess && j == 0;
    assert(st == c.step(st0, res, raw[0], j, c.rsi));
    let run = st0.zero_run + 1;
    let first = (j - st0.zero_run) as nat;
    let run_ref = c.preprocess && first == 0;
    assert(run_ref == if st0.zero_run == 0 {
        has_ref
    } else {
        st0.zero_ref
    });
    let flush = b >= c.rsi || b % 64 == 0;
    let fs = if run > 4 {
        4
    } else {
        (run - 1) as nat
    };
    assert(first + run == b);
    lemma_block_range(c, j);
    assert forall|i: int| first * c.block <= i < b * c.block implies #[trigger] res[i] == 0 by {
        if i >= j * c.block {
            assert(block[i - j * c.block] == res[i]);
        }
    }
    assert(first / 64 == (b - 1) / 64);
    if flush {
        assert(st.bits == st0.bits + c.zero_bits(run_ref, raw[0], fs));
        lemma_holds_split(s, 0, st0.bits, c.zero_bits(run_ref, raw[0], fs));
        lemma_run_step(c, s, st0.bits.len() as int, raw, fs, first, run);
        assert(st.zero_run == 0);
        assert((b - st.zero_run) as nat == first + run);
    } else {
        assert((b - st.zero_run) as nat == first);
    }
}

/// The step over any other block.
proof fn lemma_prefix_code(c: CodeParams, s: Seq<bool>, raw: Seq<u32>, start: CoderState, j: nat)
    requires
        c.wf(),
        interval_fits(c, raw),
        j < c.rsi,
        !all_zero(c.block_at(c.residuals(raw), j as int)),
        block_decodable(
            c,
            c.interval_state(raw, start, j, c.rsi),
            c.block_at(c.residuals(raw), j as int),
            j,
        ),
        prefix_ok(c, s, raw, start, j),
        holds(s, 0, c.interval_state(raw, start, j + 1, c.rsi).bits),
    ensures
        prefix_ok(c, s, raw, start, j + 1),
{
    let b = j + 1;
    let res = c.residuals(raw);
    let st0 = c.interval_state(raw, start, j, c.rsi);
    let st = c.interval_state(raw, start, b, c.rsi);
    let block = c.block_at(res, j as int);
    let has_ref = c.preprocess && j == 0;
    assert(st == c.step(st0, res, raw[0], j, c.rsi));
    let before = c.flushed(st0, raw[0]);
    let code = c.choice(has_ref, block, st0.prev_k);
    lemma_holds_split(s, 0, before, c.block_bits(code, has_ref, raw[0], block));
    let first = (j - st0.zero_run) as nat;
    if st0.zero_run > 0 {
        let fs = run_fs(st0.zero_run);
        lemma_holds_split(s, 0, st0.bits, c.zero_bits(st0.zero_ref, raw[0], fs));
        lemma_run_step(c, s, st0.bits.len() as int, raw, fs, first, st0.zero_run);
        assert(first + st0.zero_run == j);
    } else {
        assert(first == j);
    }
    lemma_best_split(coded_samples(has_ref, block), st0.prev_k, c.kmax());
    assert(decodable(c, code, block));
    lemma_block_step(c, s, before.len() as int, raw, code, j);
    assert((b - st.zero_run) as nat == j + 1);
}

proof fn lemma_interval_prefix(
    c: CodeParams,
    s: Seq<bool>,
    raw: Seq<u32>,
    start: CoderState,
    b: nat,
)
    requires
        c.wf(),
        interval_fits(c, raw),
        interval_decodable(c, raw, start),
        start.zero_run == 0,
        b <= c.rsi,
        holds(s, 0, c.interval_state(raw, start, b, c.rsi).bits),
    ensures
        prefix_ok(c, s, raw, start, b),
    decreases b,
{
    let target = interval_target(c, raw);
    let res = c.residuals(raw);
    if b == 0 {
        lemma_small_mod_zero(c.block);
        assert(0 * c.block == 0);
        assert(target.take(0) =~= Seq::<u32>::empty());
    } else {
        let j = (b - 1) as nat;
        let st0 = c.interval_state(raw, start, j, c.rsi);
        let block = c.block_at(res, j as int);
        lemma_step_extends(c, st0, res, raw[0], j, c.rsi);
        let more = choose|x: Seq<bool>| c.step(st0, res, raw[0], j, c.rsi).bits == st0.bits + x;
        lemma_holds_split(s, 0, st0.bits, more);
        lemma_interval_prefix(c, s, raw, start, j);
        if all_zero(block) {
            lemma_prefix_zero(c, s, raw, start, j);
        } else {
            assert(block_decodable(c, st0, block, j));
            lemma_prefix_code(c, s, raw, start, j);
        }
    }
}

/// A step only appends bits.
proof fn lemma_step_extends(
    c: CodeParams,
    st: CoderState,
    coded: Seq<u32>,
    reference: u32,
    b: nat,
    blocks: nat,
)
    ensures
        exists|x: Seq<bool>| c.step(st, coded, reference, b, blocks).bits == st.bits + x,
{
    let next = c.step(st, coded, reference, b, blocks).bits;
    let x = next.subrange(st.bits.len() as int, next.len() as int);
    assert(next =~= st.bits + x);
}

proof fn lemma_block_range(c: CodeParams, j: nat)
    requires
        c.wf(),
        j < c.rsi,
    ensures
        (j + 1) * c.block == j * c.block + c.block,
        (j + 1) * c.block <= c.interval(),
{
    assert((j + 1) * c.block == j * c.block + c.block) by (nonlinear_arith);
    assert((j + 1) * c.block <= c.rsi * c.block) by (nonlinear_arith)
        requires
            j + 1 <= c.rsi,
    ;
}

/// An interval is decoded to its samples.
proof fn lemma_interval(c: CodeParams, s: Seq<bool>, raw: Seq<u32>, start: CoderState)
    requires
        c.wf(),
        !c.signed,
        is_mask(c.xmax),
        c.xmax + 1 == pow2(c.bits),
        raw.len() == c.interval(),
        forall|i: int| 0 <= i < raw.len() ==> raw[i] < pow2(c.bits),
        interval_decodable(c, raw, start),
        start.zero_run == 0,
        holds(s, 0, c.interval_state(raw, start, c.rsi, c.rsi).bits),
    ensures
        holds(s, 0, start.bits),
        c.decode_interval(s, start.bits.len() as int, Seq::empty()) matches Some((buf, q)) && q
            == c.interval_state(raw, start, c.rsi, c.rsi).bits.len() && c.restored(buf) == raw,
{
    assert(c.interval() > 0) by (nonlinear_arith)
        requires
            c.interval() == c.rsi * c.block,
            c.rsi >= 1,
            c.block >= 2,
    ;
    lemma_pow2_pos(c.bits);
    lemma2_to64();
    lemma_pow2_strictly_increases(0, c.bits);
    assert(interval_fits(c, raw)) by {
        assert forall|i: int| 0 <= i < raw.len() implies c.residuals(raw)[i] < pow2(c.bits) by {
            if c.preprocess && i > 0 {
                crate::format::szip::predictor::lemma_restore_residual(raw[i - 1], raw[i], c.xmax);
            }
        }
    }
    lemma_interval_prefix(c, s, raw, start, c.rsi);
    let target = interval_target(c, raw);
    let st = c.interval_state(raw, start, c.rsi, c.rsi);
    assert(st.zero_run == 0);
    assert(target.take(c.rsi * c.block as int) =~= target);
    if c.preprocess {
        lemma_predictor_roundtrip(raw, c.xmax);
    }
}

/// Whether every block of the first `r` intervals can be decoded: no pair
/// number is above the decoder's table.
pub open spec fn codes_in_table(c: CodeParams, samples: Seq<u32>) -> bool {
    forall|r: nat|
        r < c.intervals(samples) ==> #[trigger] interval_decodable(
            c,
            c.interval_at(samples, r as int),
            interval_start(c, samples, r),
        )
}

/// The coder's state at the start of interval `r`.
pub open spec fn interval_start(c: CodeParams, samples: Seq<u32>, r: nat) -> CoderState {
    let (bits, prev_k) = c.coded(samples, r);
    CoderState { bits, zero_run: 0, zero_ref: false, prev_k }
}

proof fn lemma_intervals_prefix(
    c: CodeParams,
    s: Seq<bool>,
    samples: Seq<u32>,
    count: nat,
    r: nat,
    need: nat,
)
    requires
        c.wf(),
        !c.signed,
        is_mask(c.xmax),
        c.xmax + 1 == pow2(c.bits),
        samples.len() == count * c.interval(),
        forall|i: int| 0 <= i < samples.len() ==> samples[i] < pow2(c.bits),
        forall|r: nat|
            r < count ==> #[trigger] interval_decodable(
                c,
                c.interval_at(samples, r as int),
                interval_start(c, samples, r),
            ),
        r <= count,
        r > 0 ==> (r - 1) * c.interval() < need,
        holds(s, 0, c.coded(samples, r).0),
    ensures
        r * c.interval() <= samples.len(),
        c.decode(s, 0, Seq::empty(), need) == c.decode(
            s,
            c.coded(samples, r).0.len() as int,
            samples.take(r * c.interval() as int),
            need,
        ),
    decreases r,
{
    let n = c.interval() as int;
    assert(r * n <= count * n) by (nonlinear_arith)
        requires
            r <= count,
            n >= 0,
    ;
    if r == 0 {
        assert(0 * n == 0);
        assert(samples.take(0) =~= Seq::<u32>::empty());
    } else {
        let q = (r - 1) as nat;
        let raw = c.interval_at(samples, q as int);
        let start = interval_start(c, samples, q);
        assert(q * n + n == r * n) by (nonlinear_arith)
            requires
                r == q + 1,
        ;
        assert(0 <= q * n) by (nonlinear_arith)
            requires
                q >= 0,
                n >= 0,
        ;
        assert(c.blocks_at(samples, q as int) == c.rsi);
        lemma_interval(c, s, raw, start);
        if q > 0 {
            assert((q - 1) * n < need) by (nonlinear_arith)
                requires
                    q * n < need,
                    n >= 0,
            ;
        }
        lemma_intervals_prefix(c, s, samples, count, q, need);
        let out = samples.take(q * n);
        assert(out + raw =~= samples.take(r * n));
        assert(out.len() < need);
    }
}

/// Encoding whole intervals of samples and decoding the last `need` of them
/// from any stream that starts with the code gives the samples back.
pub proof fn lemma_code_roundtrip(c: CodeParams, s: Seq<bool>, samples: Seq<u32>, count: nat, need: nat)
    requires
        c.wf(),
        !c.signed,
        is_mask(c.xmax),
        c.xmax + 1 == pow2(c.bits),
        samples.len() == count * c.interval(),
        forall|i: int| 0 <= i < samples.len() ==> samples[i] < pow2(c.bits),
        codes_in_table(c, samples),
        need <= samples.len(),
        count > 0 ==> (count - 1) * c.interval() < need,
        holds(s, 0, c.encoded(samples)),
    ensures
        c.decode(s, 0, Seq::empty(), need) == Some(samples.take(need as int)),
{
    let n = c.interval() as int;
    assert(n > 0) by (nonlinear_arith)
        requires
            n == c.rsi * c.block,
            c.rsi >= 1,
            c.block >= 2,
    ;
    assert(c.intervals(samples) == count) by {
        assert((count * n + n - 1) / n == count) by (nonlinear_arith)
            requires
                n > 0,
                count >= 0,
        ;
    }
    lemma_intervals_prefix(c, s, samples, count, count, need);
    assert(samples.take(count * n) =~= samples);
}

} // verus!
