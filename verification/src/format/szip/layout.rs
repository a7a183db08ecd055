//! Byte order of pixels and padding of scanlines.

use vstd::arithmetic::div_mod::{lemma_fundamental_div_mod, lemma_fundamental_div_mod_converse};
use vstd::prelude::*;
use vstd::slice::slice_subrange;

use crate::format::bytes::push_slice;

verus! {

/// The bytes of `src` regrouped: the first bytes of all words, the second
/// bytes of all words, and so on. Bytes behind the last whole word become zero.
pub open spec fn interleaved(src: Seq<u8>, wordsize: nat) -> Seq<u8> {
    let count = src.len() / wordsize;
    Seq::new(
        src.len(),
        |p: int|
            if p < count * wordsize {
                src[(p % count as int) * wordsize + p / count as int]
            } else {
                0u8
            },
    )
}

/// The words whose regrouped bytes are `src`.
pub open spec fn deinterleaved(src: Seq<u8>, wordsize: nat) -> Seq<u8> {
    let count = src.len() / wordsize;
    Seq::new(
        src.len(),
        |p: int|
            if p < count * wordsize {
                src[(p % wordsize as int) * count + p / wordsize as int]
            } else {
                0u8
            },
    )
}

/// `p = a * d + b` with `b < d` has quotient `a` and remainder `b`.
proof fn lemma_divmod(p: int, d: int, a: int, b: int)
    requires
        p == a * d + b,
        0 <= b < d,
        0 <= a,
    ensures
        p / d == a,
        p % d == b,
{
    assert(d * a == a * d) by (nonlinear_arith);
    lemma_fundamental_div_mod_converse(p, d, a, b);
}

/// A pair of coordinates below `rows` and `cols` lies below `rows * cols`.
proof fn lemma_cell(a: int, b: int, rows: int, cols: int)
    requires
        0 <= a < rows,
        0 <= b < cols,
    ensures
        0 <= a * cols + b < rows * cols,
{
    assert(0 <= a * cols) by (nonlinear_arith)
        requires
            0 <= a,
            0 <= cols,
    ;
    assert((a + 1) * cols <= rows * cols) by (nonlinear_arith)
        requires
            a + 1 <= rows,
            0 <= cols,
    ;
    assert((a + 1) * cols == a * cols + cols) by (nonlinear_arith);
}

/// Coordinates of a cell.
proof fn lemma_uncell(p: int, rows: int, cols: int)
    requires
        0 <= p < rows * cols,
        0 < cols,
    ensures
        0 <= p / cols < rows,
        0 <= p % cols < cols,
        p == (p / cols) * cols + p % cols,
{
    lemma_fundamental_div_mod(p, cols);
    assert(cols * (p / cols) == (p / cols) * cols) by (nonlinear_arith);
    assert(p / cols < rows) by (nonlinear_arith)
        requires
            p < rows * cols,
            0 <= p,
            0 < cols,
    ;
    assert(0 <= p / cols) by (nonlinear_arith)
        requires
            0 <= p,
            0 < cols,
    ;
}

/// Regrouping the bytes of whole words can be undone.
pub proof fn lemma_interleave_roundtrip(src: Seq<u8>, wordsize: nat)
    requires
        wordsize > 0,
        src.len() % wordsize == 0,
    ensures
        deinterleaved(interleaved(src, wordsize), wordsize) == src,
{
    let w = wordsize as int;
    let count = (src.len() / wordsize) as int;
    lemma_fundamental_div_mod(src.len() as int, w);
    assert(w * count == count * w) by (nonlinear_arith);
    let mid = interleaved(src, wordsize);
    let back = deinterleaved(mid, wordsize);
    assert forall|p: int| 0 <= p < src.len() implies back[p] == src[p] by {
        lemma_uncell(p, count, w);
        let i = p / w;
        let j = p % w;
        lemma_cell(j, i, w, count);
        assert(w * count == count * w) by (nonlinear_arith);
        let q = j * count + i;
        lemma_divmod(q, count, j, i);
        assert(mid[q] == src[i * w + j]);
    }
    assert(back =~= src);
}

/// Regroup the bytes of `src`.
pub fn interleave_buffer(src: &[u8], wordsize: usize) -> (dest: Vec<u8>)
    requires
        wordsize > 0,
    ensures
        dest@ == interleaved(src@, wordsize as nat),
{
    let n: usize = src.len();
    let count: usize = n / wordsize;
    let ghost want = interleaved(src@, wordsize as nat);
    let mut dest: Vec<u8> = Vec::with_capacity(n);
    let mut j: usize = 0;
    proof {
        lemma_fundamental_div_mod(n as int, wordsize as int);
        assert(wordsize * count == count * wordsize) by (nonlinear_arith);
        assert(0 * count == 0);
    }
    while j < wordsize
        invariant
            n == src@.len(),
            wordsize > 0,
            count == n as int / wordsize as int,
            count * wordsize <= n,
            want == interleaved(src@, wordsize as nat),
            j <= wordsize,
            dest@.len() == j * count,
            forall|p: int| 0 <= p < dest@.len() ==> dest@[p] == want[p],
        decreases wordsize - j,
    {
        let mut i: usize = 0;
        while i < count
            invariant
                n == src@.len(),
                wordsize > 0,
                count == n as int / wordsize as int,
                count * wordsize <= n,
                want == interleaved(src@, wordsize as nat),
                j < wordsize,
                i <= count,
                dest@.len() == j * count + i,
                forall|p: int| 0 <= p < dest@.len() ==> dest@[p] == want[p],
            decreases count - i,
        {
            proof {
                lemma_cell(i as int, j as int, count as int, wordsize as int);
                lemma_cell(j as int, i as int, wordsize as int, count as int);
                assert(wordsize * count == count * wordsize) by (nonlinear_arith);
                lemma_divmod(j * count + i, count as int, j as int, i as int);
            }
            dest.push(src[i * wordsize + j]);
            i = i + 1;
        }
        proof {
            assert((j + 1) * count == j * count + count) by (nonlinear_arith);
        }
        j = j + 1;
    }
    proof {
        assert(wordsize * count == count * wordsize) by (nonlinear_arith);
    }
    while dest.len() < n
        invariant
            n == src@.len(),
            count == n as int / wordsize as int,
            want == interleaved(src@, wordsize as nat),
            count * wordsize <= dest@.len() <= n,
            forall|p: int| 0 <= p < dest@.len() ==> dest@[p] == want[p],
        decreases n - dest@.len(),
    {
        dest.push(0);
    }
    assert(dest@ =~= want);
    dest
}

/// Undo the regrouping of [`interleave_buffer`].
pub fn deinterleave_buffer(src: &[u8], wordsize: usize) -> (dest: Vec<u8>)
    requires
        wordsize > 0,
    ensures
        dest@ == deinterleaved(src@, wordsize as nat),
{
    let n: usize = src.len();
    let count: usize = n / wordsize;
    let ghost want = deinterleaved(src@, wordsize as nat);
    let mut dest: Vec<u8> = Vec::with_capacity(n);
    let mut i: usize = 0;
    proof {
        lemma_fundamental_div_mod(n as int, wordsize as int);
        assert(wordsize * count == count * wordsize) by (nonlinear_arith);
        assert(0 * wordsize == 0);
    }
    while i < count
        invariant
            n == src@.len(),
            wordsize > 0,
            count == n as int / wordsize as int,
            count * wordsize <= n,
            want == deinterleaved(src@, wordsize as nat),
            i <= count,
            dest@.len() == i * wordsize,
            forall|p: int| 0 <= p < dest@.len() ==> dest@[p] == want[p],
        decreases count - i,
    {
        let mut j: usize = 0;
        while j < wordsize
            invariant
                n == src@.len(),
                wordsize > 0,
                count == n as int / wordsize as int,
                count * wordsize <= n,
                want == deinterleaved(src@, wordsize as nat),
                i < count,
                j <= wordsize,
                dest@.len() == i * wordsize + j,
                forall|p: int| 0 <= p < dest@.len() ==> dest@[p] == want[p],
            decreases wordsize - j,
        {
            proof {
                lemma_cell(i as int, j as int, count as int, wordsize as int);
                lemma_cell(j as int, i as int, wordsize as int, count as int);
                assert(wordsize * count == count * wordsize) by (nonlinear_arith);
                lemma_divmod(i * wordsize + j, wordsize as int, i as int, j as int);
            }
            dest.push(src[j * count + i]);
            j = j + 1;
        }
        proof {
            assert((i + 1) * wordsize == i * wordsize + wordsize) by (nonlinear_arith);
        }
        i = i + 1;
    }
    while dest.len() < n
        invariant
            n == src@.len(),
            count == n as int / wordsize as int,
            want == deinterleaved(src@, wordsize as nat),
            count * wordsize <= dest@.len() <= n,
            forall|p: int| 0 <= p < dest@.len() ==> dest@[p] == want[p],
        decreases n - dest@.len(),
    {
        dest.push(0);
    }
    assert(dest@ =~= want);
    dest
}

/// Number of lines of `line` bytes that hold `len` bytes, the last one
/// possibly short.
pub open spec fn line_count(len: nat, line: nat) -> nat {
    ((len + line - 1) / line as int) as nat
}

/// Where line `l` of `len` bytes ends.
pub open spec fn line_end(len: nat, line: nat, l: int) -> int {
    if (l + 1) * line <= len {
        (l + 1) * line
    } else {
        len as int
    }
}

/// The byte in column `col` of padded line `l`: the line's own, or a byte of
/// the padding pixel. That is the last pixel before the padding where `repeat`
/// is set and there is one, else zero.
pub open spec fn padded_byte(
    src: Seq<u8>,
    line: nat,
    pixel: nat,
    repeat: bool,
    l: int,
    col: int,
) -> u8 {
    let end = line_end(src.len(), line, l);
    let own = end - l * line;
    if col < own {
        src[l * line + col]
    } else if repeat && end >= pixel {
        src[end - pixel + (col - own) % pixel as int]
    } else {
        0
    }
}

/// `src` with every line of `line` bytes filled up to `padded` bytes.
pub open spec fn padded_lines(
    src: Seq<u8>,
    line: nat,
    padded: nat,
    pixel: nat,
    repeat: bool,
) -> Seq<u8> {
    Seq::new(
        line_count(src.len(), line) * padded,
        |i: int|
            padded_byte(src, line, pixel, repeat, i / padded as int, i % padded as int),
    )
}

/// Line `l` starts inside `len` bytes exactly when it is below the line count.
proof fn lemma_line_start(len: nat, line: nat, l: int)
    requires
        line > 0,
        0 <= l,
    ensures
        (l * line < len) == (l < line_count(len, line)),
{
    let n = len as int;
    let d = line as int;
    assert((l * d < n) == (l < (n + d - 1) / d)) by (nonlinear_arith)
        requires
            d > 0,
            n >= 0,
            l >= 0,
    ;
}

/// Fill up every line of `line_size` bytes by `padding_size` bytes, and the
/// last line to the same length.
pub fn add_padding(
    src: &[u8],
    line_size: usize,
    padding_size: usize,
    pixel_size: usize,
    pp: bool,
) -> (dest: Vec<u8>)
    requires
        line_size > 0,
        pixel_size > 0,
        line_size + padding_size <= usize::MAX,
        line_count(src@.len(), line_size as nat) * (line_size + padding_size) <= usize::MAX,
    ensures
        dest@ == padded_lines(
            src@,
            line_size as nat,
            (line_size + padding_size) as nat,
            pixel_size as nat,
            pp,
        ),
{
    let padded: usize = line_size + padding_size;
    let n: usize = src.len();
    let ghost lines = line_count(src@.len(), line_size as nat);
    let ghost want = padded_lines(
        src@,
        line_size as nat,
        padded as nat,
        pixel_size as nat,
        pp,
    );
    let mut dest: Vec<u8> = Vec::new();
    let mut si: usize = 0;
    let ghost mut l: int = 0;
    proof {
        assert(0 * line_size == 0);
        assert(0 * padded == 0);
        lemma_line_start(src@.len(), line_size as nat, 0);
    }
    while si < n
        invariant
            line_size > 0,
            pixel_size > 0,
            padded == line_size + padding_size,
            n == src.len(),
            lines == line_count(src@.len(), line_size as nat),
            lines * padded <= usize::MAX,
            want == padded_lines(
                src@,
                line_size as nat,
                padded as nat,
                pixel_size as nat,
                pp,
            ),
            0 <= l <= lines,
            si <= n,
            si < n ==> si == l * line_size,
            si >= n ==> l == lines,
            dest@.len() == l * padded,
            forall|p: int| 0 <= p < dest@.len() ==> dest@[p] == want[p],
        decreases n - si,
    {
        proof {
            lemma_line_start(src@.len(), line_size as nat, l);
            lemma_line_start(src@.len(), line_size as nat, l + 1);
            assert((l + 1) * line_size == l * line_size + line_size) by (nonlinear_arith);
            assert((l + 1) * padded == l * padded + padded) by (nonlinear_arith);
        }
        let ls: usize = if n - si < line_size {
            n - si
        } else {
            line_size
        };
        let ghost base = dest@.len() as int;
        let ghost before = dest@;
        push_slice(&mut dest, slice_subrange(src, si, si + ls));
        proof {
            assert forall|p: int| 0 <= p < dest@.len() implies dest@[p] == want[p] by {
                if p >= base {
                    lemma_cell(l, p - base, lines as int, padded as int);
                    lemma_divmod(p, padded as int, l, p - base);
                } else {
                    assert(dest@[p] == before[p]);
                }
            }
        }
        si = si + ls;
        let pads: usize = padded - ls;
        let mut k: usize = 0;
        while k < pads
            invariant
                line_size > 0,
                pixel_size > 0,
                padded == line_size + padding_size,
                n == src.len(),
                want == padded_lines(
                    src@,
                    line_size as nat,
                    padded as nat,
                    pixel_size as nat,
                    pp,
                ),
                lines == line_count(src@.len(), line_size as nat),
                lines * padded <= usize::MAX,
                0 <= l < lines,
                ls <= line_size,
                pads == padded - ls,
                si == line_end(src@.len(), line_size as nat, l),
                ls == si - l * line_size,
                si <= n,
                base == l * padded,
                k <= pads,
                dest@.len() == base + ls + k,
                forall|p: int| 0 <= p < dest@.len() ==> dest@[p] == want[p],
            decreases pads - k,
        {
            proof {
                lemma_cell(l, ls + k, lines as int, padded as int);
                lemma_divmod(base + ls + k, padded as int, l, ls + k);
                vstd::arithmetic::div_mod::lemma_mod_bound(k as int, pixel_size as int);
                assert((l + 1) * padded <= lines * padded) by (nonlinear_arith)
                    requires
                        l + 1 <= lines,
                        padded >= 0,
                ;
            }
            if pp && si >= pixel_size {
                dest.push(src[si - pixel_size + k % pixel_size]);
            } else {
                dest.push(0);
            }
            k = k + 1;
        }
        proof {
            l = l + 1;
        }
    }
    assert(dest@ =~= want);
    dest
}

/// Number of bytes that are left when every line of `padded` bytes is cut to
/// `line` bytes.
pub open spec fn unpadded_len(len: nat, line: nat, padded: nat) -> nat {
    let rest = len % padded;
    (len / padded) * line + (if rest <= line {
        rest
    } else {
        line
    })
}

/// `buf` with every line of `padded` bytes cut to `line` bytes.
pub open spec fn unpadded_lines(buf: Seq<u8>, line: nat, padded: nat) -> Seq<u8> {
    if line == padded {
        buf
    } else {
        Seq::new(
            unpadded_len(buf.len(), line, padded),
            |i: int| buf[(i / line as int) * padded + i % line as int],
        )
    }
}

/// Cutting padded lines gives back the lines, in a last line that was short
/// followed by padding.
pub proof fn lemma_padding_roundtrip(src: Seq<u8>, line: nat, padded: nat, pixel: nat, repeat: bool)
    requires
        0 < line <= padded,
    ensures
        ({
            let back = unpadded_lines(padded_lines(src, line, padded, pixel, repeat), line, padded);
            &&& src.len() <= back.len()
            &&& back.take(src.len() as int) == src
        }),
{
    let lines = line_count(src.len(), line) as int;
    let buf = padded_lines(src, line, padded, pixel, repeat);
    let back = unpadded_lines(buf, line, padded);
    let w = line as int;
    let p = padded as int;
    lemma_divmod(lines * p, p, lines, 0);
    assert(src.len() <= lines * w) by (nonlinear_arith)
        requires
            lines == (src.len() + w - 1) / w,
            w > 0,
    ;
    assert(back.len() == lines * w);
    assert forall|i: int| 0 <= i < src.len() implies back[i] == src[i] by {
        lemma_uncell(i, lines, w);
        let l = i / w;
        let col = i % w;
        lemma_cell(l, col, lines, p);
        lemma_divmod(l * p + col, p, l, col);
        assert((l + 1) * w == l * w + w) by (nonlinear_arith);
        if w == p {
            assert(l * p + col == i);
        }
        assert(buf[l * p + col] == padded_byte(src, line, pixel, repeat, l, col));
    }
    assert(back.take(src.len() as int) =~= src);
}

/// Cut every padded line to `line_size` bytes.
pub fn remove_padding(buf: &mut Vec<u8>, line_size: usize, padding_size: usize)
    requires
        line_size > 0,
        line_size + padding_size <= usize::MAX,
    ensures
        final(buf)@ == unpadded_lines(
            old(buf)@,
            line_size as nat,
            (line_size + padding_size) as nat,
        ),
{
    if padding_size == 0 {
        return;
    }
    let padded: usize = line_size + padding_size;
    let n: usize = buf.len();
    let mut out: Vec<u8> = Vec::new();
    let mut src: usize = 0;
    let ghost full = (n as int / padded as int);
    let ghost rest = (n as int % padded as int);
    let ghost want = unpadded_lines(buf@, line_size as nat, padded as nat);
    let ghost mut l: int = 0;
    let mut more: bool = n > 0;
    proof {
        lemma_fundamental_div_mod(n as int, padded as int);
        vstd::arithmetic::div_mod::lemma_div_pos_is_pos(n as int, padded as int);
        assert(0 * line_size == 0);
        assert(0 * padded == 0);
        if n == 0 {
            assert(full == 0) by {
                vstd::arithmetic::div_mod::lemma_basic_div(0, padded as int);
            }
            assert(full * line_size == 0);
        }
    }
    while more
        invariant
            line_size > 0,
            padding_size > 0,
            padded == line_size + padding_size,
            n == buf@.len(),
            buf@ == old(buf)@,
            n == padded * full + rest,
            full == n as int / padded as int,
            rest == n as int % padded as int,
            0 <= rest < padded,
            0 <= l,
            want == unpadded_lines(buf@, line_size as nat, padded as nat),
            src <= n,
            more ==> src < n && src == l * padded && l <= full && out@.len() == l * line_size,
            !more ==> out@.len() == want.len(),
            forall|p: int| 0 <= p < out@.len() ==> out@[p] == want[p],
            out@.len() <= want.len(),
        decreases n - src, if more { 1int } else { 0int },
    {
        proof {
            assert((l + 1) * padded == l * padded + padded) by (nonlinear_arith);
            assert((l + 1) * line_size == l * line_size + line_size) by (nonlinear_arith);
            assert(padded * full == full * padded) by (nonlinear_arith);
            if l < full {
                assert((l + 1) * padded <= full * padded) by (nonlinear_arith)
                    requires
                        l + 1 <= full,
                        padded >= 0,
                ;
                assert((l + 1) * line_size <= full * line_size) by (nonlinear_arith)
                    requires
                        l + 1 <= full,
                        line_size >= 0,
                ;
            } else {
                assert(l * padded == full * padded);
                assert(n - src == rest);
            }
        }
        let copy: usize = if n - src < line_size {
            n - src
        } else {
            line_size
        };
        let ghost before = out@;
        push_slice(&mut out, slice_subrange(buf.as_slice(), src, src + copy));
        proof {
            assert(out@.len() <= want.len());
            assert forall|p: int| 0 <= p < out@.len() implies out@[p] == want[p] by {
                if p >= before.len() {
                    lemma_divmod(p, line_size as int, l, p - before.len());
                } else {
                    assert(out@[p] == before[p]);
                }
            }
        }
        if n - src > padded {
            src = src + padded;
            proof {
                assert(l + 1 <= full) by (nonlinear_arith)
                    requires
                        l * padded + padded < n,
                        n == padded * full + rest,
                        rest < padded,
                        0 <= rest,
                ;
                l = l + 1;
            }
        } else {
            proof {
                if l < full {
                    assert(n == (l + 1) * padded);
                    assert(full == l + 1 && rest == 0) by (nonlinear_arith)
                        requires
                            n == (l + 1) * padded,
                            n == padded * full + rest,
                            0 <= rest < padded,
                            l < full,
                    ;
                }
            }
            more = false;
        }
    }
    assert(out@ =~= want);
    *buf = out;
}

} // verus!
