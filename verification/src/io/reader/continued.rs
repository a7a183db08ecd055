//! Superblocks and object headers read back, with their continuations.

use crate::format::bytes::{
    le_bytes, le_value, lemma_le_roundtrip_exact, pow256,
};
use crate::format::header_v1::{lemma_two_bytes, message_laid, padding, used};
use crate::format::messages::{
    MSG_LINK, MSG_LINK_INFO, MSG_OBJ_HEADER_CONTINUATION, MSG_SYMBOL_TABLE,
};
use crate::format::object_header::{
    lemma_message_at, lemma_message_fields, lemma_messages_bytes_len, messages_bytes, messages_fit,
    messages_len, ordered, overhead, MessageView,
};
use crate::format::superblock::{
    lemma_superblock_roundtrip, signature, SuperblockV0V1, SuperblockV2V3,
};
use crate::format::superblock_v0::{
    layable, lemma_superblock_v0_reads_back, superblock_bytes,
};
use crate::format::{ErrorView, FormatContext, UNDEF_ADDR};
use crate::io::reader::headers::{
    aligned, block_refs, continued, continued_v1, continued_v2, next_block, readable, signed_at,
    superblock_in, superblock_start, symbol_table, BlockRef, Superblock, WalkState,
    MAX_CONT_BLOCKS,
};
use crate::io::reader::messages::infos;
use crate::io::reader::open::{found_v0v1, link_message};
use crate::io::reader::tables::Tables;
use crate::io::reader::walk::{linked, ObjectNode, Objects};
use crate::io::search::lemma_position;
use vstd::prelude::*;

verus! {

/// A superblock that stands behind a user block is found where it stands, when no signature
/// comes before.
pub proof fn lemma_superblock_found(buf: Seq<u8>, at: int)
    requires
        0 <= at,
        at + 8 <= buf.len(),
        buf.subrange(at, at + 8) == signature(),
        forall|i: int| 0 <= i < at ==> #[trigger] buf.subrange(i, i + 8) != signature(),
    ensures
        superblock_start(buf) == at,
{
    let f = signed_at(buf);
    let n = (buf.len() - 7) as nat;
    assert(buf.skip(at).subrange(0, 8) =~= buf.subrange(at, at + 8));
    assert(f(at));
    assert forall|j: int| 0 <= j < at implies !#[trigger] f(j) by {
        assert(buf.skip(j).subrange(0, 8) =~= buf.subrange(j, j + 8));
    }
    lemma_position(n, f, at);
}

/// A superblock of any version is read as what was laid out.
pub proof fn lemma_any_superblock(
    old: SuperblockV0V1,
    other: Seq<u8>,
    scratch: Seq<u8>,
    new: SuperblockV2V3,
    tail: Seq<u8>,
)
    ensures
        layable(old, other, scratch) ==> superblock_in(superblock_bytes(old, other, scratch) + tail)
            == Ok::<Superblock, ErrorView>(Superblock::V0V1(old)),
        new.valid() ==> superblock_in(new.bytes() + tail) == Ok::<Superblock, ErrorView>(
            Superblock::V2V3(new),
        ),
{
    if layable(old, other, scratch) {
        lemma_superblock_v0_reads_back(old, other, scratch, tail);
    }
    if new.valid() {
        lemma_superblock_roundtrip(new, tail);
    }
}

/// Where message `i` of a bare block begins.
pub open spec fn block_start(ms: Seq<MessageView>, i: nat) -> nat
    decreases i,
{
    if i == 0 {
        0
    } else {
        let n = ms[i - 1].data.len();
        block_start(ms, (i - 1) as nat) + 8 + n + padding(n)
    }
}

/// Whether a continuation block of a version 1 header holds these messages, and less than
/// a message behind them.
pub open spec fn block_laid(b: Seq<u8>, ms: Seq<MessageView>) -> bool {
    &&& block_start(ms, ms.len()) <= b.len() < block_start(ms, ms.len()) + 8
    &&& forall|i: int|
        0 <= i < ms.len() ==> message_laid(b, block_start(ms, i as nat) as int, #[trigger] ms[i])
}

proof fn lemma_block_starts(ms: Seq<MessageView>, i: nat, n: nat)
    requires
        i <= n <= ms.len(),
    ensures
        block_start(ms, i) % 8 == 0,
        block_start(ms, i) <= block_start(ms, n),
    decreases n,
{
    if i < n {
        lemma_block_starts(ms, i, (n - 1) as nat);
    } else if n > 0 {
        lemma_block_starts(ms, (n - 1) as nat, (n - 1) as nat);
    }
}

proof fn lemma_aligned_next(pos: int, n: nat)
    requires
        pos >= 0,
        pos % 8 == 0,
    ensures
        aligned(pos + 8 + n) == pos + 8 + n + padding(n),
{
}

/// One message of a block is read, and then what follows behind its padding.
proof fn lemma_block_step(b: Seq<u8>, pos: int, m: MessageView)
    requires
        0 <= pos,
        pos % 8 == 0,
        message_laid(b, pos, m),
        pos + 8 + m.data.len() <= b.len(),
    ensures
        continued_v1(b, pos) == (if m.msg_type == 0 {
            Seq::empty()
        } else {
            seq![m]
        }) + continued_v1(b, pos + 8 + m.data.len() + padding(m.data.len())),
{
    lemma_two_bytes(b, pos);
    lemma_two_bytes(b, pos + 2);
    lemma_aligned_next(pos, m.data.len());
    assert(le_value(b.subrange(pos, pos + 2)) == m.msg_type);
    assert(le_value(b.subrange(pos + 2, pos + 4)) == m.data.len());
    assert(MessageView { msg_type: m.msg_type, flags: m.flags, data: m.data } == m);
    let at = pos + 8;
    let n = m.data.len() as int;
    assert(b.subrange(at, at + n) == m.data);
    assert(aligned(at + n) == pos + 8 + n + padding(m.data.len()));
}

proof fn lemma_block_from(b: Seq<u8>, ms: Seq<MessageView>, i: nat)
    requires
        block_laid(b, ms),
        i <= ms.len(),
    ensures
        continued_v1(b, block_start(ms, i) as int) == used(ms.skip(i as int)),
    decreases ms.len() - i,
{
    let rest = ms.skip(i as int);
    let pos = block_start(ms, i) as int;
    if i < ms.len() {
        lemma_block_from(b, ms, i + 1);
        lemma_block_starts(ms, i, ms.len());
        lemma_block_starts(ms, i + 1, ms.len());
        let m = ms[i as int];
        assert(message_laid(b, pos, m));
        lemma_block_step(b, pos, m);
        assert(rest[0] == m);
        assert(rest.drop_first() =~= ms.skip(i as int + 1));
        let tail = used(ms.skip(i as int + 1));
        assert(Seq::<MessageView>::empty() + tail =~= tail);
    }
}

/// A continuation block of a version 1 header is read as the messages that are laid out in
/// it. Messages of type zero are padding and are left out.
pub proof fn lemma_block_v1_reads_back(b: Seq<u8>, ms: Seq<MessageView>)
    requires
        block_laid(b, ms),
    ensures
        continued(b, false, false) == used(ms),
{
    lemma_block_from(b, ms, 0);
    assert(ms.skip(0) =~= ms);
}

proof fn lemma_chunk_from(
    b: Seq<u8>,
    ms: Seq<MessageView>,
    flags: u8,
    i: int,
)
    requires
        messages_fit(ms),
        b.len() == 8 + messages_len(ms, flags),
        b.subrange(4, 4 + messages_len(ms, flags) as int) == messages_bytes(ms, flags),
        0 <= i <= ms.len(),
    ensures
        continued_v2(b, 4 + messages_len(ms.take(i), flags) as int, overhead(flags) as int) == used(
            ms.skip(i),
        ),
    decreases ms.len() - i,
{
    let end = 4 + messages_len(ms, flags) as int;
    let pos = 4 + messages_len(ms.take(i), flags) as int;
    let rest = ms.skip(i);
    if i == ms.len() {
        assert(ms.take(i) =~= ms);
    } else {
        lemma_message_at(ms, flags, i);
        lemma_chunk_from(b, ms, flags, i + 1);
        let m = ms[i];
        let next = 4 + messages_len(ms.take(i + 1), flags) as int;
        assert(b.subrange(pos, next) =~= b.subrange(4, end).subrange(pos - 4, next - 4));
        lemma_message_fields(m, flags, b, pos);
        assert(rest[0] == m);
        assert(rest.drop_first() =~= ms.skip(i + 1));
        let tail = used(ms.skip(i + 1));
        assert(Seq::<MessageView>::empty() + tail =~= tail);
        assert(MessageView { msg_type: m.msg_type, flags: m.flags, data: m.data } == m);
    }
}

/// A continuation block of a version 2 header is read as the messages that are laid out in
/// it, between its signature "OCHK" and its checksum.
pub proof fn lemma_block_v2_reads_back(
    ms: Seq<MessageView>,
    flags: u8,
    check: Seq<u8>,
)
    requires
        messages_fit(ms),
        check.len() == 4,
    ensures
        continued(
            seq![0x4fu8, 0x43, 0x48, 0x4b] + messages_bytes(ms, flags) + check,
            true,
            ordered(flags),
        ) == used(ms),
{
    let magic = seq![0x4fu8, 0x43, 0x48, 0x4b];
    let b = magic + messages_bytes(ms, flags) + check;
    lemma_messages_bytes_len(ms, flags);
    assert(b.subrange(0, 4) =~= magic);
    assert(b.subrange(4, 4 + messages_len(ms, flags) as int) =~= messages_bytes(ms, flags));
    lemma_chunk_from(b, ms, flags, 0);
    assert(ms.take(0) =~= Seq::empty());
    assert(ms.skip(0) =~= ms);
}

/// The data of a message that holds an address and a second number.
pub open spec fn two_numbers(a: u64, sa: nat, b: u64, sb: nat) -> Seq<u8> {
    le_bytes(a as nat, sa) + le_bytes(b as nat, sb)
}

proof fn lemma_two_numbers(a: u64, sa: nat, b: u64, sb: nat, rest: Seq<u8>)
    requires
        a < pow256(sa),
        b < pow256(sb),
    ensures
        ({
            let d = two_numbers(a, sa, b, sb) + rest;
            &&& d.len() >= sa + sb
            &&& le_value(d.subrange(0, sa as int)) == a
            &&& le_value(d.subrange(sa as int, (sa + sb) as int)) == b
        }),
{
    let d = two_numbers(a, sa, b, sb) + rest;
    lemma_le_roundtrip_exact(a as nat, sa);
    lemma_le_roundtrip_exact(b as nat, sb);
    assert(d.subrange(0, sa as int) =~= le_bytes(a as nat, sa));
    assert(d.subrange(sa as int, (sa + sb) as int) =~= le_bytes(b as nat, sb));
}

/// Every continuation message names its block, by the address and the length in it, in the
/// order of the messages.
pub proof fn lemma_blocks_named(
    m: Seq<MessageView>,
    ctx: FormatContext,
    k: int,
    addr: u64,
    len: u64,
    rest: Seq<u8>,
    n: nat,
)
    requires
        0 <= k < n <= m.len(),
        m[k].msg_type == MSG_OBJ_HEADER_CONTINUATION,
        addr < pow256(ctx.sizeof_addr as nat),
        len < pow256(ctx.sizeof_size as nat),
        m[k].data == two_numbers(addr, ctx.sizeof_addr as nat, len, ctx.sizeof_size as nat) + rest,
    ensures
        block_refs(m, ctx, n).contains(BlockRef { addr, len }),
    decreases n,
{
    let all = block_refs(m, ctx, n);
    let before = block_refs(m, ctx, (n - 1) as nat);
    if k == n - 1 {
        lemma_two_numbers(addr, ctx.sizeof_addr as nat, len, ctx.sizeof_size as nat, rest);
        assert(all[before.len() as int] == (BlockRef { addr, len }));
    } else {
        lemma_blocks_named(m, ctx, k, addr, len, rest, (n - 1) as nat);
        let i = choose|i: int| 0 <= i < before.len() && before[i] == (BlockRef { addr, len });
        assert(all[i] == (BlockRef { addr, len }));
    }
}

/// Every block that is named is read: as long as a block with a place and a length is
/// pending that has not been read, one such block is handed out, up to the largest number of
/// blocks; the others stay pending.
pub proof fn lemma_blocks_read(s: WalkState)
    requires
        s.blocks_read < MAX_CONT_BLOCKS,
    ensures
        match next_block(s) {
            (Some(b), t) => {
                &&& s.pending.contains(b)
                &&& b.addr != UNDEF_ADDR && b.addr != 0 && b.len != 0
                &&& !s.visited.contains(b.addr)
                &&& forall|x: BlockRef| #[trigger]
                    s.pending.contains(x) && x.addr != UNDEF_ADDR && x.addr != 0 && x.len != 0
                        && !s.visited.contains(x.addr) ==> x.addr == b.addr || t.pending.contains(
                        x,
                    )
            },
            (None, t) => forall|x: BlockRef| #[trigger]
                s.pending.contains(x) ==> x.addr == UNDEF_ADDR || x.addr == 0 || x.len == 0
                    || s.visited.contains(x.addr),
        },
    decreases s.pending.len(),
{
    if s.pending.len() > 0 {
        let last = s.pending.last();
        let rest = s.pending.drop_last();
        assert forall|x: BlockRef| s.pending.contains(x) <==> x == last || #[trigger]
            rest.contains(x) by {
            if s.pending.contains(x) {
                let i = choose|i: int| 0 <= i < s.pending.len() && s.pending[i] == x;
                if i < rest.len() {
                    assert(rest[i] == x);
                }
            }
            if rest.contains(x) {
                let i = choose|i: int| 0 <= i < rest.len() && rest[i] == x;
                assert(s.pending[i] == x);
            }
            assert(s.pending[s.pending.len() - 1] == last);
        }
        if !readable(last, s.visited) {
            lemma_blocks_read(WalkState { pending: rest, ..s });
        }
        assert forall|x: BlockRef| #[trigger] s.pending.contains(x) implies x == last
            || rest.contains(x) by {
            assert(s.pending.contains(x) <==> x == last || rest.contains(x));
        }
        match next_block(s) {
            (Some(b), _) => {
                assert(b == last || rest.contains(b));
            },
            _ => {},
        }
    }
}

/// The symbol table of a group is the one that the first message about it names.
pub proof fn lemma_symbol_table_named(
    m: Seq<MessageView>,
    sa: nat,
    k: int,
    btree: u64,
    heap: u64,
    rest: Seq<u8>,
    n: nat,
)
    requires
        0 <= k < n <= m.len(),
        btree < pow256(sa),
        heap < pow256(sa),
        m[k].msg_type == MSG_SYMBOL_TABLE,
        m[k].data == two_numbers(btree, sa, heap, sa) + rest,
        forall|i: int| 0 <= i < k ==> (#[trigger] m[i]).msg_type != MSG_SYMBOL_TABLE,
    ensures
        symbol_table(m, sa, n) == Some((btree, heap)),
    decreases n,
{
    if k == n - 1 {
        lemma_two_numbers(btree, sa, heap, sa, rest);
        lemma_no_table(m, sa, k as nat);
    } else {
        lemma_symbol_table_named(m, sa, k, btree, heap, rest, (n - 1) as nat);
    }
}

proof fn lemma_no_table(m: Seq<MessageView>, sa: nat, n: nat)
    requires
        n <= m.len(),
        forall|i: int| 0 <= i < n ==> (#[trigger] m[i]).msg_type != MSG_SYMBOL_TABLE,
    ensures
        symbol_table(m, sa, n) is None,
    decreases n,
{
    if n > 0 {
        lemma_no_table(m, sa, (n - 1) as nat);
    }
}

/// A file with a superblock of version 0 or 1 is walked from the symbol table of its root
/// group on: the one that the superblock knows, or that of the group's header. Where the
/// header of the root group has links, these are followed.
pub proof fn lemma_old_file_walked(sb: SuperblockV0V1, node: ObjectNode, o: Objects)
    ensures
        ({
            let e = sb.root_symbol_table_entry;
            let m = infos(node.messages@);
            let links = exists|i: int|
                0 <= i < m.len() && ((#[trigger] m[i]).msg_type
                    == MSG_LINK || m[i].msg_type
                    == MSG_LINK_INFO);
            let t = Tables {
                objects: o,
                btree: if e.cache_type == 1 {
                    e.btree_addr
                } else {
                    node.btree
                },
                heap: if e.cache_type == 1 {
                    e.heap_addr
                } else {
                    node.heap
                },
                root: e.obj_header_addr,
            };
            found_v0v1(sb, Some(node), o) == if links {
                linked(o, m, e.obj_header_addr)
            } else {
                t.found()
            }
        }),
{
    let m = infos(node.messages@);
    if exists|i: int|
        0 <= i < m.len() && ((#[trigger] m[i]).msg_type == MSG_LINK
            || m[i].msg_type == MSG_LINK_INFO) {
        let i = choose|i: int|
            0 <= i < m.len() && ((#[trigger] m[i]).msg_type == MSG_LINK
                || m[i].msg_type == MSG_LINK_INFO);
        assert(link_message(m[i].msg_type));
    }
}

} // verus!
