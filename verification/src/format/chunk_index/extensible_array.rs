//! Extensible arrays: the index of the chunks of a dataset that can grow.
//!
//! The first elements stand in the index block. The rest stand in data blocks,
//! which are grouped into super blocks of growing size: super block `u` has
//! `2^(u/2)` data blocks of `2^((u+1)/2)` times the smallest size. The data
//! blocks of the first super blocks are reached from the index block, those of
//! the others through a super block of their own.

use crate::format::bytes::power_of_two;
use crate::format::{invalid_data, FormatResult};
use vstd::arithmetic::div_mod::lemma_fundamental_div_mod;
use vstd::arithmetic::power2::{
    lemma2_to64, lemma_pow2_adds, lemma_pow2_pos, lemma_pow2_strictly_increases, lemma_pow2_unfold,
    pow2,
};
use vstd::prelude::*;

verus! {

/// Class of an array of chunk addresses.
pub const EA_CLS_CHUNK: u8 = 0;

/// Class of an array of addresses, sizes and masks of filtered chunks.
pub const EA_CLS_FILT_CHUNK: u8 = 1;

/// Creation parameters of an extensible array.
#[derive(Debug, Clone, Copy, PartialEq, Eq, Structural)]
pub struct EarrayParams {
    /// Elements of the array, as a power of two.
    pub max_nelmts_bits: u8,
    /// Elements of the index block.
    pub idx_blk_elmts: u8,
    /// Smallest number of data blocks of a super block.
    pub sup_blk_min_data_ptrs: u8,
    /// Smallest number of elements of a data block.
    pub data_blk_min_elmts: u8,
    /// Elements of a data block page, as a power of two.
    pub max_dblk_page_nelmts_bits: u8,
}

impl EarrayParams {
    /// The usual parameters.
    pub fn default_params() -> (p: Self)
        ensures
            p == default_earray_params(),
    {
        EarrayParams {
            max_nelmts_bits: 32,
            idx_blk_elmts: 4,
            sup_blk_min_data_ptrs: 4,
            data_blk_min_elmts: 16,
            max_dblk_page_nelmts_bits: 10,
        }
    }
}

/// The usual parameters.
pub open spec fn default_earray_params() -> EarrayParams {
    EarrayParams {
        max_nelmts_bits: 32,
        idx_blk_elmts: 4,
        sup_blk_min_data_ptrs: 4,
        data_blk_min_elmts: 16,
        max_dblk_page_nelmts_bits: 10,
    }
}

/// Data blocks of super block `u`.
pub open spec fn sblk_ndblks(u: nat) -> nat {
    pow2(u / 2)
}

/// Elements of a data block of super block `u`, where the smallest has `2^a`.
pub open spec fn sblk_dblk_nelmts(a: nat, u: nat) -> nat {
    pow2((u + 1) / 2) * pow2(a)
}

/// Elements before super block `u`, those of the index block not counted.
pub open spec fn sblk_start(a: nat, u: nat) -> int {
    pow2(a) * (pow2(u) - 1)
}

/// Data blocks before super block `u`.
pub open spec fn sblk_start_dblk(u: nat) -> nat
    decreases u,
{
    if u == 0 {
        0
    } else {
        sblk_start_dblk((u - 1) as nat) + sblk_ndblks((u - 1) as nat)
    }
}

/// A super block begins where the one before it ends.
pub proof fn lemma_sblk_next(a: nat, u: nat)
    ensures
        sblk_start(a, u + 1) == sblk_start(a, u) + sblk_ndblks(u) * sblk_dblk_nelmts(a, u),
        sblk_start(a, u) >= 0,
        sblk_ndblks(u) > 0,
        sblk_dblk_nelmts(a, u) > 0,
{
    lemma_pow2_unfold(u + 1);
    lemma_pow2_adds(u / 2, (u + 1) / 2);
    assert(u / 2 + (u + 1) / 2 == u);
    lemma_pow2_pos(u);
    lemma_pow2_pos(u / 2);
    lemma_pow2_pos((u + 1) / 2);
    lemma_pow2_pos(a);
    let m = pow2(a) as int;
    let x = pow2(u / 2) as int;
    let y = pow2((u + 1) / 2) as int;
    let z = pow2(u) as int;
    assert(m * (2 * z - 1) == m * (z - 1) + x * (y * m)) by (nonlinear_arith)
        requires
            x * y == z,
    ;
    assert(m * (z - 1) >= 0) by (nonlinear_arith)
        requires
            m > 0,
            z > 0,
    ;
    assert(y * m > 0) by (nonlinear_arith)
        requires
            m > 0,
            y > 0,
    ;
}

/// Later super blocks begin later.
pub proof fn lemma_sblk_order(a: nat, u: nat, v: nat)
    requires
        u <= v,
    ensures
        sblk_start(a, u) <= sblk_start(a, v),
        u < v ==> sblk_start(a, u + 1) <= sblk_start(a, v),
    decreases v - u,
{
    if u < v {
        lemma_sblk_next(a, u);
        assert(sblk_ndblks(u) * sblk_dblk_nelmts(a, u) >= 0);
        lemma_sblk_order(a, u + 1, v);
    }
}

/// Data blocks of the first `2 k` super blocks.
pub proof fn lemma_direct_dblks(k: nat)
    ensures
        sblk_start_dblk(2 * k) == 2 * (pow2(k) - 1),
    decreases k,
{
    if k == 0 {
        lemma2_to64();
    } else {
        let j = (k - 1) as nat;
        lemma_direct_dblks(j);
        lemma_pow2_unfold(k);
        assert(2 * k == 2 * j + 2);
        assert((2 * j) / 2 == j);
        assert((2 * j + 1) / 2 == j);
        assert(sblk_start_dblk((2 * j + 1) as nat) == sblk_start_dblk(2 * j) + sblk_ndblks(2 * j));
        assert(sblk_start_dblk((2 * j + 2) as nat) == sblk_start_dblk((2 * j + 1) as nat)
            + sblk_ndblks((2 * j + 1) as nat));
    }
}

/// Later super blocks have later data blocks.
pub proof fn lemma_dblk_order(u: nat, v: nat)
    requires
        u < v,
    ensures
        sblk_start_dblk(u) + sblk_ndblks(u) <= sblk_start_dblk(v),
    decreases v,
{
    if u + 1 < v {
        lemma_dblk_order(u, (v - 1) as nat);
    }
}

/// A super block of the geometry.
#[derive(Debug, Clone, Copy, PartialEq, Eq, Structural)]
pub struct EaSuperInfo {
    /// Data blocks.
    pub ndblks: u64,
    /// Elements of each data block.
    pub dblk_nelmts: u64,
    /// Elements before the super block, those of the index block not counted.
    pub start_idx: u64,
    /// Data blocks before the super block.
    pub start_dblk: u64,
}

/// How an extensible array spreads its elements over blocks.
pub struct EaGeometry {
    /// Elements of the index block.
    pub idx_blk_elmts: u64,
    /// Super blocks whose data blocks are reached from the index block.
    pub iblock_nsblks: usize,
    /// Data block addresses of the index block.
    pub ndblk_addrs: usize,
    /// Super block addresses of the index block.
    pub nsblk_addrs: usize,
    /// Elements of a data block page.
    pub dblk_page_nelmts: u64,
    /// The super blocks.
    pub sblk: Vec<EaSuperInfo>,
    /// The parameters of the array.
    pub params: EarrayParams,
}

/// Where an element stands.
#[derive(Debug, Clone, Copy, PartialEq, Eq, Structural)]
pub enum EaLoc {
    /// In the index block.
    Index { elem: usize },
    /// In a data block.
    Dblk(EaDblkLoc),
}

/// Where an element stands in the data blocks.
#[derive(Debug, Clone, Copy, PartialEq, Eq, Structural)]
pub struct EaDblkLoc {
    /// The super block.
    pub sblk: usize,
    /// The data block within the super block.
    pub local_dblk: u64,
    /// The element within the data block.
    pub offset_in_dblk: u64,
    /// Elements of the data block.
    pub dblk_nelmts: u64,
    /// Elements before the data block, those of the index block not counted.
    pub dblk_block_offset: u64,
    /// Whether the data block is paged.
    pub paged: bool,
    /// How the data block is reached.
    pub path: EaDblkPath,
}

/// How a data block is reached.
#[derive(Debug, Clone, Copy, PartialEq, Eq, Structural)]
pub enum EaDblkPath {
    /// From the index block.
    Direct { idx: usize },
    /// Through a super block.
    ViaSblk {
        sblk_off: usize,
        local_dblk: usize,
        ndblks_in_sblk: usize,
        sblk_block_offset: u64,
    },
}

/// The exponent of a power of two.
pub open spec fn log_of(m: nat) -> nat {
    choose|a: nat| pow2(a) == m
}

/// Whether parameters describe an array: block sizes are powers of two, and the
/// array has at least the super blocks that the index block reaches.
pub open spec fn earray_valid(p: EarrayParams) -> bool {
    &&& exists|a: nat| #[trigger] pow2(a) == p.data_blk_min_elmts
    &&& exists|k: nat| #[trigger] pow2(k) == p.sup_blk_min_data_ptrs
    &&& p.max_nelmts_bits <= 62
    &&& p.max_dblk_page_nelmts_bits <= 62
    &&& log_of(p.data_blk_min_elmts as nat) <= p.max_nelmts_bits
    &&& 2 * log_of(p.sup_blk_min_data_ptrs as nat) <= 1 + p.max_nelmts_bits - log_of(
        p.data_blk_min_elmts as nat,
    )
}

/// Powers of two have one exponent each.
pub proof fn lemma_log_of(a: nat)
    ensures
        log_of(pow2(a)) == a,
{
    let b = log_of(pow2(a));
    assert(pow2(b) == pow2(a));
    if a < b {
        lemma_pow2_strictly_increases(a, b);
    }
    if b < a {
        lemma_pow2_strictly_increases(b, a);
    }
}

impl EaGeometry {
    /// The geometry is that of its parameters.
    pub open spec fn wf(self) -> bool {
        let a = self.min_bits();
        &&& earray_valid(self.params)
        &&& pow2(a) == self.params.data_blk_min_elmts
        &&& a <= self.params.max_nelmts_bits
        &&& self.idx_blk_elmts == self.params.idx_blk_elmts
        &&& self.sblk@.len() == 1 + self.params.max_nelmts_bits - a
        &&& self.iblock_nsblks == 2 * log_of(self.params.sup_blk_min_data_ptrs as nat)
        &&& self.iblock_nsblks <= self.sblk@.len()
        &&& self.nsblk_addrs == self.sblk@.len() - self.iblock_nsblks
        &&& self.ndblk_addrs == sblk_start_dblk(self.iblock_nsblks as nat)
        &&& self.ndblk_addrs == 2 * (self.params.sup_blk_min_data_ptrs - 1)
        &&& self.dblk_page_nelmts == pow2(self.params.max_dblk_page_nelmts_bits as nat)
        &&& forall|u: int|
            0 <= u < self.sblk@.len() ==> #[trigger] self.sblk@[u] == self.info(u as nat)
        &&& sblk_start(a, self.sblk@.len()) + self.idx_blk_elmts <= u64::MAX
    }

    /// Smallest number of elements of a data block, as a power of two.
    pub open spec fn min_bits(self) -> nat {
        log_of(self.params.data_blk_min_elmts as nat)
    }

    /// Super block `u`.
    pub open spec fn info(self, u: nat) -> EaSuperInfo {
        EaSuperInfo {
            ndblks: sblk_ndblks(u) as u64,
            dblk_nelmts: sblk_dblk_nelmts(self.min_bits(), u) as u64,
            start_idx: sblk_start(self.min_bits(), u) as u64,
            start_dblk: sblk_start_dblk(u) as u64,
        }
    }

    /// Number of super blocks.
    pub open spec fn nsblks(self) -> nat {
        self.sblk@.len()
    }

    /// Elements of a data block of super block `u`.
    pub open spec fn nelmts(self, u: int) -> int {
        sblk_dblk_nelmts(self.min_bits(), u as nat) as int
    }

    /// The number of element `off` of data block `d` of super block `u`.
    pub open spec fn number(self, u: int, d: int, off: int) -> int {
        self.idx_blk_elmts + sblk_start(self.min_bits(), u as nat) + d * self.nelmts(u) + off
    }

    /// Whether there is such an element.
    pub open spec fn has(self, u: int, d: int, off: int) -> bool {
        &&& 0 <= u < self.nsblks()
        &&& 0 <= d < sblk_ndblks(u as nat)
        &&& 0 <= off < self.nelmts(u)
    }

    /// How many elements the array can hold.
    pub open spec fn capacity(self) -> int {
        self.idx_blk_elmts + sblk_start(self.min_bits(), self.nsblks())
    }

    /// Whether the data blocks of super block `u` are paged.
    pub open spec fn paged(self, u: int) -> bool {
        self.nelmts(u) > self.dblk_page_nelmts
    }

    /// Whether no data block that the index block reaches is paged.
    pub open spec fn direct_flat(self) -> bool {
        forall|u: int| 0 <= u < self.iblock_nsblks ==> !#[trigger] self.paged(u)
    }
}

/// Distinct elements have distinct numbers.
pub proof fn lemma_number_injective(
    g: EaGeometry,
    u: int,
    d: int,
    off: int,
    v: int,
    e: int,
    pos: int,
)
    requires
        g.wf(),
        g.has(u, d, off),
        g.has(v, e, pos),
        g.number(u, d, off) == g.number(v, e, pos),
    ensures
        u == v && d == e && off == pos,
{
    lemma_number_bounds(g, u, d, off);
    lemma_number_bounds(g, v, e, pos);
    let a = g.min_bits();
    if u < v {
        lemma_sblk_order(a, u as nat, v as nat);
    }
    if v < u {
        lemma_sblk_order(a, v as nat, u as nat);
    }
    let n = g.nelmts(u);
    assert(d == e && off == pos) by (nonlinear_arith)
        requires
            d * n + off == e * n + pos,
            0 <= off < n,
            0 <= pos < n,
    ;
}

/// The elements of a super block stand between its start and the next.
pub proof fn lemma_number_bounds(g: EaGeometry, u: int, d: int, off: int)
    requires
        g.wf(),
        g.has(u, d, off),
    ensures
        g.idx_blk_elmts + sblk_start(g.min_bits(), u as nat) <= g.number(u, d, off),
        g.number(u, d, off) < g.idx_blk_elmts + sblk_start(g.min_bits(), (u + 1) as nat),
        g.number(u, d, off) < g.capacity(),
{
    let a = g.min_bits();
    lemma_sblk_next(a, u as nat);
    lemma_sblk_order(a, (u + 1) as nat, g.nsblks());
    let n = g.nelmts(u);
    let k = sblk_ndblks(u as nat) as int;
    assert(0 <= d * n + off < k * n) by (nonlinear_arith)
        requires
            0 <= d < k,
            0 <= off < n,
    ;
}

/// There are fewer data blocks than elements.
proof fn lemma_start_dblk_bound(u: nat)
    ensures
        sblk_start_dblk(u) <= pow2(u) - 1,
    decreases u,
{
    lemma_pow2_pos(u);
    if u > 0 {
        let v = (u - 1) as nat;
        lemma_start_dblk_bound(v);
        lemma_pow2_unfold(u);
        if v / 2 < v {
            lemma_pow2_strictly_increases(v / 2, v);
        }
    } else {
        lemma2_to64();
    }
}

/// The numbers of a super block are small.
proof fn lemma_info_small(a: nat, u: nat, bits: nat)
    requires
        a + u <= bits + 1,
        bits <= 62,
    ensures
        sblk_ndblks(u) <= 0x8000_0000,
        sblk_dblk_nelmts(a, u) <= 0x8000_0000_0000_0000,
        0 <= sblk_start(a, u) < 0x8000_0000_0000_0000,
        sblk_start_dblk(u) <= 0x8000_0000_0000_0000,
{
    lemma2_to64();
    lemma_start_dblk_bound(u);
    lemma_pow2_adds(a, u);
    lemma_pow2_adds((u + 1) / 2, a);
    lemma_pow2_pos(a);
    lemma_pow2_pos(u);
    assert(pow2(63) == 0x8000_0000_0000_0000) by {
        lemma_pow2_unfold(63);
        assert(pow2(62) == 0x4000_0000_0000_0000) by {
            vstd::arithmetic::power2::lemma2_to64_rest();
        }
    }
    if a + u < 63 {
        lemma_pow2_strictly_increases(a + u, 63);
    }
    if u < 63 {
        lemma_pow2_strictly_increases(u, 63);
    }
    assert(pow2(31) == 0x8000_0000);
    if u / 2 < 31 {
        lemma_pow2_strictly_increases(u / 2, 31);
    }
    if (u + 1) / 2 + a < 63 {
        lemma_pow2_strictly_increases((u + 1) / 2 + a, 63);
    }
    let m = pow2(a) as int;
    let z = pow2(u) as int;
    assert(0 <= m * (z - 1) < m * z) by (nonlinear_arith)
        requires
            m > 0,
            z > 0,
    ;
}

/// The exponent of a byte that is a power of two.
fn exponent(m: u8) -> (r: Option<u32>)
    ensures
        match r {
            Some(a) => a < 8 && pow2(a as nat) == m,
            None => !exists|a: nat| #[trigger] pow2(a) == m,
        },
{
    let mut a: u32 = 0;
    let mut p: u16 = 1;
    proof {
        lemma2_to64();
    }
    while a < 8
        invariant
            a <= 8,
            p == pow2(a as nat),
            p <= 256,
            forall|b: nat| b < a ==> #[trigger] pow2(b) != m,
        decreases 8 - a,
    {
        if p == m as u16 {
            return Some(a);
        }
        proof {
            lemma_pow2_unfold((a + 1) as nat);
            lemma2_to64();
            if a + 1 < 8 {
                lemma_pow2_strictly_increases((a + 1) as nat, 8);
            }
        }
        p = p * 2;
        a = a + 1;
    }
    proof {
        assert forall|b: nat| #[trigger] pow2(b) != m by {
            if b > 8 {
                lemma_pow2_strictly_increases(8, b);
            }
            lemma2_to64();
        }
    }
    None
}

impl EaGeometry {
    /// The geometry of an array with these parameters.
    pub fn new(params: &EarrayParams) -> (r: FormatResult<Self>)
        ensures
            match r {
                Ok(g) => earray_valid(*params) && g.wf() && g.params == *params,
                Err(e) => !earray_valid(*params) && e.is_invalid(
                    "invalid extensible array parameters"@,
                ),
            },
    {
        let a: u32 = match exponent(params.data_blk_min_elmts) {
            Some(a) => a,
            None => {
                return Err(invalid_data("invalid extensible array parameters"));
            },
        };
        let k: u32 = match exponent(params.sup_blk_min_data_ptrs) {
            Some(k) => k,
            None => {
                return Err(invalid_data("invalid extensible array parameters"));
            },
        };
        proof {
            lemma_log_of(a as nat);
            lemma_log_of(k as nat);
        }
        let bits: u32 = params.max_nelmts_bits as u32;
        if bits > 62 || params.max_dblk_page_nelmts_bits > 62 || a > bits || 2 * k > 1 + bits - a {
            return Err(invalid_data("invalid extensible array parameters"));
        }
        let nsblks: u32 = 1 + bits - a;
        let m: u128 = power_of_two(a);
        let mut sblk: Vec<EaSuperInfo> = Vec::new();
        let mut start_dblk: u64 = 0;
        let mut u: u32 = 0;
        let ghost an = a as nat;
        while u < nsblks
            invariant
                u <= nsblks,
                nsblks == 1 + bits - a,
                bits <= 62,
                a < 8,
                an == a as nat,
                m == pow2(an),
                sblk@.len() == u,
                start_dblk == sblk_start_dblk(u as nat),
                forall|v: int|
                    0 <= v < u ==> #[trigger] sblk@[v] == (EaSuperInfo {
                        ndblks: sblk_ndblks(v as nat) as u64,
                        dblk_nelmts: sblk_dblk_nelmts(an, v as nat) as u64,
                        start_idx: sblk_start(an, v as nat) as u64,
                        start_dblk: sblk_start_dblk(v as nat) as u64,
                    }),
            decreases nsblks - u,
        {
            proof {
                lemma_info_small(an, u as nat, bits as nat);
                lemma_info_small(an, (u + 1) as nat, bits as nat);
                lemma2_to64();
            }
            let x: u128 = power_of_two(u / 2);
            let y: u128 = power_of_two((u + 1) / 2);
            let z: u128 = power_of_two(u);
            assert(m <= 128 && y * m == sblk_dblk_nelmts(an, u as nat)) by {
                if an < 7 {
                    lemma_pow2_strictly_increases(an, 7);
                }
            }
            assert(m * (z - 1) == sblk_start(an, u as nat));
            sblk.push(
                EaSuperInfo {
                    ndblks: x as u64,
                    dblk_nelmts: (y * m) as u64,
                    start_idx: (m * (z - 1)) as u64,
                    start_dblk,
                },
            );
            start_dblk = start_dblk + x as u64;
            u = u + 1;
        }
        let page: u128 = power_of_two(params.max_dblk_page_nelmts_bits as u32);
        proof {
            lemma_info_small(an, nsblks as nat, bits as nat);
            lemma_direct_dblks(k as nat);
            vstd::arithmetic::power2::lemma2_to64_rest();
            if params.max_dblk_page_nelmts_bits < 62 {
                lemma_pow2_strictly_increases(params.max_dblk_page_nelmts_bits as nat, 62);
            }
            lemma_pow2_pos(k as nat);
        }
        Ok(
            EaGeometry {
                idx_blk_elmts: params.idx_blk_elmts as u64,
                iblock_nsblks: (2 * k) as usize,
                ndblk_addrs: 2 * (params.sup_blk_min_data_ptrs as usize - 1),
                nsblk_addrs: (nsblks - 2 * k) as usize,
                dblk_page_nelmts: page as u64,
                sblk,
                params: *params,
            },
        )
    }

    /// What is known of super block `u`.
    pub proof fn lemma_info(self, u: int)
        requires
            self.wf(),
            0 <= u < self.nsblks(),
        ensures
            self.sblk@[u].ndblks == sblk_ndblks(u as nat),
            self.sblk@[u].dblk_nelmts == self.nelmts(u),
            self.sblk@[u].start_idx == sblk_start(self.min_bits(), u as nat),
            self.sblk@[u].start_dblk == sblk_start_dblk(u as nat),
            sblk_ndblks(u as nat) > 0,
            self.nelmts(u) > 0,
            sblk_ndblks(u as nat) <= 0x8000_0000,
            self.nelmts(u) <= 0x8000_0000_0000_0000,
    {
        lemma_info_small(self.min_bits(), u as nat, self.params.max_nelmts_bits as nat);
        lemma_sblk_next(self.min_bits(), u as nat);
    }

    /// Whether the data blocks of super block `u` are paged.
    pub fn is_sblk_paged(&self, u: usize) -> (r: bool)
        requires
            self.wf(),
            u < self.nsblks(),
        ensures
            r == self.paged(u as int),
    {
        proof {
            self.lemma_info(u as int);
        }
        self.sblk[u].dblk_nelmts > self.dblk_page_nelmts
    }

    /// Where element `idx` stands.
    pub fn locate(&self, idx: u64) -> (r: FormatResult<EaLoc>)
        requires
            self.wf(),
        ensures
            match r {
                Ok(EaLoc::Index { elem }) => elem == idx && idx < self.idx_blk_elmts,
                Ok(EaLoc::Dblk(l)) => idx >= self.idx_blk_elmts && self.locates(l, idx as int),
                Err(e) => idx >= self.idx_blk_elmts && idx >= self.capacity() && e.is_invalid(
                    "extensible array index out of range"@,
                ),
            },
    {
        if idx < self.idx_blk_elmts {
            return Ok(EaLoc::Index { elem: idx as usize });
        }
        let e: u64 = idx - self.idx_blk_elmts;
        let ghost a = self.min_bits();
        let mut u: usize = 0;
        proof {
            lemma2_to64();
            assert(sblk_start(a, 0) == 0) by {
                assert(pow2(a) * 0 == 0) by (nonlinear_arith);
            }
        }
        while u < self.sblk.len()
            invariant
                self.wf(),
                u <= self.sblk.len(),
                a == self.min_bits(),
                e == idx - self.idx_blk_elmts,
                idx >= self.idx_blk_elmts,
                e >= sblk_start(a, u as nat),
            decreases self.sblk.len() - u,
        {
            let s = self.sblk[u];
            proof {
                self.lemma_info(u as int);
                lemma_sblk_next(a, u as nat);
            }
            let ghost n = self.nelmts(u as int);
            let ghost k = sblk_ndblks(u as nat) as int;
            let r: u64 = e - s.start_idx;
            let d: u64 = r / s.dblk_nelmts;
            proof {
                lemma_fundamental_div_mod(r as int, n);
                assert((d < k) == (r < k * n)) by (nonlinear_arith)
                    requires
                        d == r / (n as u64),
                        r == n * d + r % (n as u64),
                        0 <= r % (n as u64) < n,
                        n > 0,
                        k > 0,
                ;
            }
            if d < s.ndblks {
                let off: u64 = r % s.dblk_nelmts;
                proof {
                    assert(n * d == d * n) by (nonlinear_arith);
                    assert(d * n <= r);
                    lemma_sblk_order(a, u as nat, self.nsblks());
                    if u < self.iblock_nsblks {
                        lemma_dblk_order(u as nat, self.iblock_nsblks as nat);
                    }
                }
                let path: EaDblkPath = if u < self.iblock_nsblks {
                    EaDblkPath::Direct { idx: (s.start_dblk + d) as usize }
                } else {
                    EaDblkPath::ViaSblk {
                        sblk_off: u - self.iblock_nsblks,
                        local_dblk: d as usize,
                        ndblks_in_sblk: s.ndblks as usize,
                        sblk_block_offset: s.start_idx,
                    }
                };
                let l = EaDblkLoc {
                    sblk: u,
                    local_dblk: d,
                    offset_in_dblk: off,
                    dblk_nelmts: s.dblk_nelmts,
                    dblk_block_offset: s.start_idx + d * s.dblk_nelmts,
                    paged: s.dblk_nelmts > self.dblk_page_nelmts,
                    path,
                };
                return Ok(EaLoc::Dblk(l));
            }
            u = u + 1;
        }
        Err(invalid_data("extensible array index out of range"))
    }

    /// Whether `l` is where element `idx` stands.
    pub open spec fn locates(self, l: EaDblkLoc, idx: int) -> bool {
        let u = l.sblk as int;
        &&& self.has(u, l.local_dblk as int, l.offset_in_dblk as int)
        &&& self.number(u, l.local_dblk as int, l.offset_in_dblk as int) == idx
        &&& l.dblk_nelmts == self.nelmts(u)
        &&& l.dblk_block_offset == sblk_start(self.min_bits(), u as nat) + l.local_dblk
            * self.nelmts(u)
        &&& l.paged == self.paged(u)
        &&& match l.path {
            EaDblkPath::Direct { idx: i } => u < self.iblock_nsblks && i == sblk_start_dblk(
                u as nat,
            ) + l.local_dblk && i < self.ndblk_addrs,
            EaDblkPath::ViaSblk { sblk_off, local_dblk, ndblks_in_sblk, sblk_block_offset } => {
                &&& u >= self.iblock_nsblks
                &&& sblk_off == u - self.iblock_nsblks
                &&& local_dblk == l.local_dblk
                &&& ndblks_in_sblk == sblk_ndblks(u as nat)
                &&& sblk_block_offset == sblk_start(self.min_bits(), u as nat)
            },
        }
    }
}

} // verus!
