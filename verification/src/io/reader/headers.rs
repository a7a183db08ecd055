//! Finding the superblock, and reading object headers with their continuations.

use crate::format::bytes::{copy_range, le_value, lemma_pow256_values, read_le_at};
use crate::format::messages::{MSG_OBJ_HEADER_CONTINUATION, MSG_SYMBOL_TABLE};
use crate::format::object_header::{
    is_v1, messages_view, ordered, parsed_header, parsed_header_v1, HeaderView, MessageView,
    ObjectHeader, ObjectHeaderMessage,
};
use crate::format::superblock::{
    detect_superblock_version, detected_version, has_signature, parsed_v0v1, parsed_v2v3, signed,
    view_of, SuperblockV0V1, SuperblockV2V3,
};
use crate::format::{ErrorView, FormatContext, FormatError, FormatResult, UNDEF_ADDR};
use crate::io::search::{lemma_no_position, lemma_position, position};
use std::collections::HashSet;
use vstd::prelude::*;
use vstd::slice::slice_subrange;

verus! {

broadcast use vstd::std_specs::hash::group_hash_axioms;

/// How far into a file its superblock is looked for.
pub const SUPERBLOCK_SCAN_BYTES: usize = 1048576;

/// How many bytes of an object header are read at first.
pub const HEADER_PROBE: usize = 8192;

/// How many continuation blocks of an object header are followed.
pub const MAX_CONT_BLOCKS: usize = 4096;

/// Whether a signature stands at position `i`.
pub open spec fn signed_at(buf: Seq<u8>) -> spec_fn(int) -> bool {
    |i: int| signed(buf.skip(i))
}

/// Where the superblock begins: at the first signature, or at the start.
pub open spec fn superblock_start(buf: Seq<u8>) -> int {
    let n = if buf.len() < 8 {
        0
    } else {
        (buf.len() - 7) as nat
    };
    match position(n, signed_at(buf)) {
        Some(i) => i,
        None => 0,
    }
}

/// Where the superblock begins. `buf` is the start of the file.
pub fn find_superblock(buf: &[u8]) -> (at: usize)
    ensures
        at == superblock_start(buf@),
{
    let len: usize = buf.len();
    if len < 8 {
        return 0;
    }
    let ghost f = signed_at(buf@);
    let n: usize = len - 7;
    let mut i: usize = 0;
    while i < n
        invariant
            len == buf@.len(),
            len >= 8,
            n == len - 7,
            i <= n,
            f == signed_at(buf@),
            forall|j: int| 0 <= j < i ==> !#[trigger] f(j),
        decreases n - i,
    {
        let rest = slice_subrange(buf, i, len);
        assert(rest@ =~= buf@.skip(i as int));
        if has_signature(rest) {
            proof {
                assert(f(i as int));
                lemma_position(n as nat, f, i as int);
            }
            return i;
        }
        assert(!f(i as int));
        i = i + 1;
    }
    proof {
        lemma_no_position(n as nat, f);
    }
    0
}

/// A superblock of any version.
#[derive(Debug, Clone, Copy, PartialEq, Eq, Structural)]
pub enum Superblock {
    /// Version 0 or 1.
    V0V1(SuperblockV0V1),
    /// Version 2 or 3.
    V2V3(SuperblockV2V3),
}

/// The superblock at the start of bytes.
pub open spec fn superblock_in(buf: Seq<u8>) -> Result<Superblock, ErrorView> {
    match detected_version(buf) {
        Err(e) => Err(e),
        Ok(v) => if v == 0 || v == 1 {
            match parsed_v0v1(buf) {
                Ok(s) => Ok(Superblock::V0V1(s)),
                Err(e) => Err(e),
            }
        } else {
            match parsed_v2v3(buf) {
                Ok(s) => Ok(Superblock::V2V3(s)),
                Err(e) => Err(e),
            }
        },
    }
}

/// Read the superblock at the start of `buf`.
pub fn read_superblock(buf: &[u8]) -> (r: FormatResult<Superblock>)
    ensures
        view_of(r) == superblock_in(buf@),
{
    match detect_superblock_version(buf) {
        Err(e) => Err(e),
        Ok(v) => {
            if v == 0 || v == 1 {
                match SuperblockV0V1::decode(buf) {
                    Ok(s) => Ok(Superblock::V0V1(s)),
                    Err(e) => Err(e),
                }
            } else {
                match SuperblockV2V3::decode(buf) {
                    Ok(s) => Ok(Superblock::V2V3(s)),
                    Err(e) => Err(e),
                }
            }
        },
    }
}

/// The symbol table of a group, if its header has one: the addresses of its B-tree
/// and of its heap. Messages that end too early do not count.
pub open spec fn symbol_table(m: Seq<MessageView>, sa: nat, n: nat) -> Option<(u64, u64)>
    decreases n,
{
    if n == 0 {
        None
    } else {
        match symbol_table(m, sa, (n - 1) as nat) {
            Some(t) => Some(t),
            None => {
                let x = m[n - 1];
                if x.msg_type == MSG_SYMBOL_TABLE && x.data.len() >= 2 * sa {
                    Some(
                        (
                            le_value(x.data.subrange(0, sa as int)) as u64,
                            le_value(x.data.subrange(sa as int, 2 * sa as int)) as u64,
                        ),
                    )
                } else {
                    None
                }
            },
        }
    }
}

proof fn lemma_symbol_table(m: Seq<MessageView>, sa: nat, n: nat, k: nat)
    requires
        n <= k,
        symbol_table(m, sa, n) is Some,
    ensures
        symbol_table(m, sa, k) == symbol_table(m, sa, n),
    decreases k,
{
    if n < k {
        lemma_symbol_table(m, sa, n, (k - 1) as nat);
    }
}

/// The symbol table of a group: the addresses of its B-tree and of its heap.
pub fn stab_from_header(header: &ObjectHeader, ctx: &FormatContext) -> (r: (u64, u64))
    requires
        ctx.sizeof_addr <= 8,
    ensures
        r == match symbol_table(
            header@.messages,
            ctx.sizeof_addr as nat,
            header@.messages.len(),
        ) {
            Some(t) => t,
            None => (UNDEF_ADDR, UNDEF_ADDR),
        },
{
    let sa: usize = ctx.sizeof_addr as usize;
    let mut i: usize = 0;
    while i < header.messages.len()
        invariant
            i <= header.messages.len(),
            sa <= 8,
            sa == ctx.sizeof_addr,
            symbol_table(header@.messages, sa as nat, i as nat) is None,
        decreases header.messages.len() - i,
    {
        let m = &header.messages[i];
        assert(header@.messages[i as int] == m@);
        if m.msg_type == MSG_SYMBOL_TABLE && m.data.len() >= 2 * sa {
            let b: u64 = read_le_at(m.data.as_slice(), 0, sa);
            let h: u64 = read_le_at(m.data.as_slice(), sa, sa);
            proof {
                lemma_symbol_table(
                    header@.messages,
                    sa as nat,
                    (i + 1) as nat,
                    header@.messages.len(),
                );
            }
            return (b, h);
        }
        i = i + 1;
    }
    (UNDEF_ADDR, UNDEF_ADDR)
}

/// What was found at the place of an object header.
#[derive(Debug)]
pub enum HeaderProbe {
    /// So many bytes have to be read.
    ReadMore(usize),
    /// The header, and whether it is of version 2.
    Found(ObjectHeader, bool),
}

/// An object header of either version at the start of bytes.
pub open spec fn any_header(buf: Seq<u8>) -> Result<(HeaderView, nat), ErrorView> {
    if is_v1(buf) {
        parsed_header_v1(buf)
    } else {
        parsed_header(buf)
    }
}

/// Whether bytes begin with the signature of a version 2 header.
pub open spec fn version_two(buf: Seq<u8>) -> bool {
    buf.len() >= 4 && buf[0] == 0x4f && buf[1] == 0x48 && buf[2] == 0x44 && buf[3] == 0x52
}

/// Look for an object header at the start of `buf`. If the header says that it is
/// longer, more has to be read once.
pub fn probe_header(buf: &[u8], first: bool) -> (r: FormatResult<HeaderProbe>)
    ensures
        match any_header(buf@) {
            Ok(h) => r matches Ok(HeaderProbe::Found(x, v2)) && x@ == h.0 && v2 == version_two(
                buf@,
            ),
            Err(e) => if first && (e matches ErrorView::BufferTooShort { needed, .. } && needed
                > buf@.len()) {
                r matches Ok(HeaderProbe::ReadMore(n)) && n == e->needed
            } else {
                r matches Err(x) && x@ == e
            },
        },
{
    let len: usize = buf.len();
    match ObjectHeader::decode_any(buf) {
        Ok((h, _)) => {
            let v2: bool = len >= 4 && buf[0] == 0x4f && buf[1] == 0x48 && buf[2] == 0x44 && buf[3]
                == 0x52;
            Ok(HeaderProbe::Found(h, v2))
        },
        Err(FormatError::BufferTooShort { needed, available }) => {
            if first && needed > len {
                Ok(HeaderProbe::ReadMore(needed))
            } else {
                Err(FormatError::BufferTooShort { needed, available })
            }
        },
        Err(e) => Err(e),
    }
}

/// The messages of a continuation block of a version 2 header, from `pos` on. They end
/// before the checksum, or at a message that does not fit.
pub open spec fn continued_v2(b: Seq<u8>, pos: int, hdr: int) -> Seq<MessageView>
    decreases b.len() - pos,
{
    let end = b.len() - 4;
    if hdr <= 0 || pos < 0 || pos + hdr > end {
        Seq::empty()
    } else {
        let n = le_value(b.subrange(pos + 1, pos + 3)) as int;
        let at = pos + hdr;
        if at + n > end {
            Seq::empty()
        } else {
            let one = if b[pos] == 0 {
                Seq::empty()
            } else {
                seq![
                    MessageView {
                        msg_type: b[pos],
                        flags: b[pos + 3],
                        data: b.subrange(at, at + n),
                    },
                ]
            };
            one + continued_v2(b, at + n, hdr)
        }
    }
}

/// A position rounded up to a multiple of eight.
pub open spec fn aligned(pos: int) -> int {
    (pos + 7) / 8 * 8
}

/// The messages of a continuation block of a version 1 header, from `pos` on. They end
/// at a message that does not fit.
pub open spec fn continued_v1(b: Seq<u8>, pos: int) -> Seq<MessageView>
    decreases b.len() + 8 - pos,
{
    if pos < 0 || pos + 8 > b.len() {
        Seq::empty()
    } else {
        let t = le_value(b.subrange(pos, pos + 2));
        let n = le_value(b.subrange(pos + 2, pos + 4)) as int;
        let at = pos + 8;
        if at + n > b.len() {
            Seq::empty()
        } else {
            let one = if t == 0 {
                Seq::empty()
            } else {
                seq![
                    MessageView {
                        msg_type: (t % 256) as u8,
                        flags: b[pos + 4],
                        data: b.subrange(at, at + n),
                    },
                ]
            };
            one + continued_v1(b, aligned(at + n))
        }
    }
}

/// The messages of a continuation block.
pub open spec fn continued(b: Seq<u8>, is_v2: bool, in_sequence: bool) -> Seq<MessageView> {
    if is_v2 {
        if b.len() < 8 || b.subrange(0, 4) != seq![0x4fu8, 0x43u8, 0x48u8, 0x4bu8] {
            Seq::empty()
        } else {
            continued_v2(
                b,
                4,
                if in_sequence {
                    6
                } else {
                    4
                },
            )
        }
    } else {
        continued_v1(b, 0)
    }
}

fn parse_continuation_v2(b: &[u8], hdr: usize) -> (out: Vec<ObjectHeaderMessage>)
    requires
        b@.len() >= 8,
        4 <= hdr <= 6,
    ensures
        messages_view(out@) == continued_v2(b@, 4, hdr as int),
{
    let end: usize = b.len() - 4;
    let ghost want = continued_v2(b@, 4, hdr as int);
    let mut out: Vec<ObjectHeaderMessage> = Vec::new();
    let mut pos: usize = 4;
    proof {
        lemma_pow256_values();
        assert(messages_view(out@) + want =~= want);
    }
    while hdr <= end - pos
        invariant_except_break
            messages_view(out@) + continued_v2(b@, pos as int, hdr as int) == want,
        invariant
            end == b@.len() - 4,
            4 <= hdr <= 6,
            pos <= end,
            want == continued_v2(b@, 4, hdr as int),
        ensures
            messages_view(out@) == want,
        decreases end - pos,
    {
        let t: u8 = b[pos];
        let n: usize = read_le_at(b, pos + 1, 2) as usize;
        let flags: u8 = b[pos + 3];
        let at: usize = pos + hdr;
        proof {
            lemma_pow256_values();
        }
        if n > end - at {
            assert(messages_view(out@) + Seq::<MessageView>::empty() =~= messages_view(out@));
            break;
        }
        let ghost before = out@;
        if t != 0 {
            let m = ObjectHeaderMessage { msg_type: t, flags, data: copy_range(b, at, at + n) };
            out.push(m);
            assert(messages_view(out@) =~= messages_view(before).push(m@));
        }
        proof {
            let rest = continued_v2(b@, at + n, hdr as int);
            assert(messages_view(out@) + rest =~= messages_view(before) + continued_v2(
                b@,
                pos as int,
                hdr as int,
            ));
        }
        pos = at + n;
        proof {
            if !(hdr <= end - pos) {
                assert(messages_view(out@) + Seq::<MessageView>::empty() =~= messages_view(out@));
            }
        }
    }
    out
}

fn parse_continuation_v1(b: &[u8]) -> (out: Vec<ObjectHeaderMessage>)
    ensures
        messages_view(out@) == continued_v1(b@, 0),
{
    let len: usize = b.len();
    let ghost want = continued_v1(b@, 0);
    let mut out: Vec<ObjectHeaderMessage> = Vec::new();
    let mut pos: usize = 0;
    proof {
        assert(messages_view(out@) + want =~= want);
    }
    proof {
        if len < 8 {
            lemma_v1_end(b@, 0);
        }
    }
    while 8 <= len - pos
        invariant_except_break
            messages_view(out@) + continued_v1(b@, pos as int) == want,
            8 > len - pos ==> messages_view(out@) == want,
        invariant
            len == b.len(),
            pos <= len,
            want == continued_v1(b@, 0),
        ensures
            messages_view(out@) == want,
        decreases len - pos,
    {
        let t: u64 = read_le_at(b, pos, 2);
        let n: usize = read_le_at(b, pos + 2, 2) as usize;
        let flags: u8 = b[pos + 4];
        let at: usize = pos + 8;
        proof {
            lemma_pow256_values();
        }
        if n > len - at {
            assert(messages_view(out@) + Seq::<MessageView>::empty() =~= messages_view(out@));
            break;
        }
        let ghost before = out@;
        if t != 0 {
            let m = ObjectHeaderMessage {
                msg_type: (t % 256) as u8,
                flags,
                data: copy_range(b, at, at + n),
            };
            out.push(m);
            assert(messages_view(out@) =~= messages_view(before).push(m@));
        }
        let ghost next = aligned(at + n);
        proof {
            let rest = continued_v1(b@, next);
            assert(messages_view(out@) + rest =~= messages_view(before) + continued_v1(
                b@,
                pos as int,
            ));
        }
        match align_within(at + n, len) {
            Some(p) => {
                pos = p;
            },
            None => {
                pos = len;
                proof {
                    lemma_v1_end(b@, next);
                    lemma_v1_end(b@, len as int);
                }
            },
        }
        proof {
            if 8 > len - pos {
                lemma_v1_end(b@, pos as int);
                assert(messages_view(out@) + Seq::<MessageView>::empty() =~= messages_view(out@));
            }
        }
    }
    out
}

/// There are no messages where less than a message header is left.
proof fn lemma_v1_end(b: Seq<u8>, pos: int)
    requires
        pos + 8 > b.len(),
    ensures
        continued_v1(b, pos) == Seq::<MessageView>::empty(),
{
}

/// A position rounded up to a multiple of eight, if that is not behind `len`.
fn align_within(pos: usize, len: usize) -> (r: Option<usize>)
    requires
        pos <= len,
    ensures
        match r {
            Some(p) => p == aligned(pos as int) && pos <= p <= len,
            None => aligned(pos as int) > len,
        },
{
    let over: usize = pos % 8;
    if over == 0 {
        Some(pos)
    } else if len - pos < 8 - over {
        None
    } else {
        Some(pos + (8 - over))
    }
}

/// The messages of a continuation block. Blocks of version 2 headers begin with "OCHK"
/// and end with a checksum; those of version 1 headers are bare. Messages of type zero
/// are left out.
pub fn parse_continuation_block(b: &[u8], is_v2: bool, in_sequence: bool) -> (out: Vec<
    ObjectHeaderMessage,
>)
    ensures
        messages_view(out@) == continued(b@, is_v2, in_sequence),
{
    if !is_v2 {
        return parse_continuation_v1(b);
    }
    let magic: bool = b.len() >= 8 && b[0] == 0x4f && b[1] == 0x43 && b[2] == 0x48 && b[3] == 0x4b;
    proof {
        let want = seq![0x4fu8, 0x43u8, 0x48u8, 0x4bu8];
        if b@.len() >= 8 {
            let got = b@.subrange(0, 4);
            if magic {
                assert(got =~= want);
            } else if got == want {
                assert(got[0] == want[0] && got[1] == want[1] && got[2] == want[2] && got[3]
                    == want[3]);
            }
        }
    }
    if !magic {
        let out: Vec<ObjectHeaderMessage> = Vec::new();
        assert(messages_view(out@) =~= Seq::<MessageView>::empty());
        return out;
    }
    parse_continuation_v2(
        b,
        if in_sequence {
            6
        } else {
            4
        },
    )
}

/// A continuation block: where it stands and how long it is.
#[derive(Debug, Clone, Copy, PartialEq, Eq, Structural)]
pub struct BlockRef {
    /// Address of the block.
    pub addr: u64,
    /// Bytes of the block.
    pub len: u64,
}

/// The continuation blocks that the first `n` messages refer to.
pub open spec fn block_refs(m: Seq<MessageView>, ctx: FormatContext, n: nat) -> Seq<BlockRef>
    decreases n,
{
    if n == 0 {
        Seq::empty()
    } else {
        let before = block_refs(m, ctx, (n - 1) as nat);
        let x = m[n - 1];
        let sa = ctx.sizeof_addr as int;
        let ss = ctx.sizeof_size as int;
        if x.msg_type == MSG_OBJ_HEADER_CONTINUATION && x.data.len() >= sa + ss {
            before.push(
                BlockRef {
                    addr: le_value(x.data.subrange(0, sa)) as u64,
                    len: le_value(x.data.subrange(sa, sa + ss)) as u64,
                },
            )
        } else {
            before
        }
    }
}

/// Append the continuation blocks that messages refer to.
fn collect_refs(m: &Vec<ObjectHeaderMessage>, ctx: &FormatContext, out: &mut Vec<BlockRef>)
    requires
        ctx.sizeof_addr <= 8,
        ctx.sizeof_size <= 8,
    ensures
        final(out)@ == old(out)@ + block_refs(messages_view(m@), *ctx, m@.len()),
{
    let sa: usize = ctx.sizeof_addr as usize;
    let ss: usize = ctx.sizeof_size as usize;
    let ghost ms = messages_view(m@);
    let mut i: usize = 0;
    assert(out@ =~= old(out)@ + block_refs(ms, *ctx, 0));
    while i < m.len()
        invariant
            i <= m.len(),
            sa == ctx.sizeof_addr,
            ss == ctx.sizeof_size,
            sa <= 8,
            ss <= 8,
            ms == messages_view(m@),
            out@ == old(out)@ + block_refs(ms, *ctx, i as nat),
        decreases m.len() - i,
    {
        let x = &m[i];
        assert(ms[i as int] == x@);
        if x.msg_type == MSG_OBJ_HEADER_CONTINUATION && x.data.len() >= sa + ss {
            let addr: u64 = read_le_at(x.data.as_slice(), 0, sa);
            let len: u64 = read_le_at(x.data.as_slice(), sa, ss);
            out.push(BlockRef { addr, len });
        }
        i = i + 1;
        assert(out@ =~= old(out)@ + block_refs(ms, *ctx, i as nat));
    }
}

/// An object header in the course of reading.
pub struct HeaderWalk {
    /// The header with the messages found so far.
    pub header: ObjectHeader,
    /// Widths of addresses and lengths.
    pub ctx: FormatContext,
    /// Whether the header is of version 2.
    pub is_v2: bool,
    /// Blocks that have not been read, the next one last.
    pub pending: Vec<BlockRef>,
    /// Blocks that have been read.
    pub visited: HashSet<u64>,
    /// How many blocks have been asked for.
    pub blocks_read: usize,
}

/// Where reading a header stands.
#[verifier::ext_equal]
pub struct WalkState {
    pub pending: Seq<BlockRef>,
    pub visited: Set<u64>,
    pub blocks_read: nat,
}

/// Whether a block is to be read: it has a place, a length, and has not been read.
pub open spec fn readable(b: BlockRef, visited: Set<u64>) -> bool {
    b.addr != UNDEF_ADDR && b.addr != 0 && b.len != 0 && !visited.contains(b.addr)
}

/// The next block to be read, and where reading stands then. Nothing is left when no
/// readable block is pending, or when too many have been read.
pub open spec fn next_block(s: WalkState) -> (Option<BlockRef>, WalkState)
    decreases s.pending.len(),
{
    if s.pending.len() == 0 {
        (None, s)
    } else {
        let b = s.pending.last();
        let rest = s.pending.drop_last();
        if !readable(b, s.visited) {
            next_block(WalkState { pending: rest, ..s })
        } else {
            let now = WalkState {
                pending: rest,
                visited: s.visited.insert(b.addr),
                blocks_read: s.blocks_read + 1,
            };
            if s.blocks_read + 1 > MAX_CONT_BLOCKS {
                (None, now)
            } else {
                (Some(b), now)
            }
        }
    }
}

impl HeaderWalk {
    /// Where reading stands.
    pub open spec fn state(self) -> WalkState {
        WalkState {
            pending: self.pending@,
            visited: self.visited@,
            blocks_read: self.blocks_read as nat,
        }
    }

    /// The number of blocks is counted right.
    pub open spec fn wf(self) -> bool {
        &&& self.ctx.sizeof_addr <= 8
        &&& self.ctx.sizeof_size <= 8
        &&& self.blocks_read <= MAX_CONT_BLOCKS
    }

    /// Begin with the header that has been found.
    pub fn start(header: ObjectHeader, is_v2: bool, ctx: &FormatContext) -> (w: Self)
        requires
            ctx.sizeof_addr <= 8,
            ctx.sizeof_size <= 8,
        ensures
            w.wf(),
            w.header == header,
            w.is_v2 == is_v2,
            w.ctx == *ctx,
            w.state() == (WalkState {
                pending: block_refs(header@.messages, *ctx, header@.messages.len()),
                visited: Set::empty(),
                blocks_read: 0,
            }),
    {
        let mut pending: Vec<BlockRef> = Vec::new();
        collect_refs(&header.messages, ctx, &mut pending);
        assert(pending@ =~= block_refs(header@.messages, *ctx, header@.messages.len()));
        HeaderWalk {
            header,
            ctx: *ctx,
            is_v2,
            pending,
            visited: HashSet::new(),
            blocks_read: 0,
        }
    }

    /// The next block that has to be read.
    pub fn next(&mut self) -> (r: Option<BlockRef>)
        requires
            old(self).wf(),
        ensures
            final(self).header == old(self).header,
            final(self).ctx == old(self).ctx,
            final(self).is_v2 == old(self).is_v2,
            (r, final(self).state()) == next_block(old(self).state()),
            r is Some ==> final(self).wf(),
    {
        let ghost want = next_block(self.state());
        while self.pending.len() > 0
            invariant
                self.blocks_read <= MAX_CONT_BLOCKS,
                self.ctx.sizeof_addr <= 8,
                self.ctx.sizeof_size <= 8,
                self.header == old(self).header,
                self.ctx == old(self).ctx,
                self.is_v2 == old(self).is_v2,
                want == next_block(old(self).state()),
                want == next_block(self.state()),
            decreases self.pending@.len(),
        {
            let ghost before = *self;
            match self.pending.pop() {
                None => {},
                Some(b) => {
                    assert(self.pending@ =~= before.pending@.drop_last());
                    assert(b == before.pending@.last());
                    if b.addr != UNDEF_ADDR && b.addr != 0 && b.len != 0 && !self.visited.contains(
                        &b.addr,
                    ) {
                        self.visited.insert(b.addr);
                        self.blocks_read = self.blocks_read + 1;
                        if self.blocks_read > MAX_CONT_BLOCKS {
                            return None;
                        }
                        return Some(b);
                    }
                },
            }
        }
        None
    }

    /// Take in the content of a block that has been read.
    pub fn supply(&mut self, block: &[u8])
        requires
            old(self).wf(),
        ensures
            final(self).wf(),
            final(self).ctx == old(self).ctx,
            final(self).is_v2 == old(self).is_v2,
            ({
                let sequence = old(self).is_v2 && ordered(old(self).header.flags);
                let more = continued(block@, old(self).is_v2, sequence);
                &&& final(self).header.flags == old(self).header.flags
                &&& final(self).header@.messages == old(self).header@.messages + more
                &&& final(self).state() == (WalkState {
                    pending: old(self).pending@ + block_refs(more, old(self).ctx, more.len()),
                    ..old(self).state()
                })
            }),
    {
        let ghost before = *self;
        let in_sequence: bool = self.is_v2 && self.header.flags / 4 % 2 == 1;
        let mut more = parse_continuation_block(block, self.is_v2, in_sequence);
        let ctx = self.ctx;
        collect_refs(&more, &ctx, &mut self.pending);
        let ghost all = more@;
        self.header.messages.append(&mut more);
        proof {
            assert(messages_view(self.header.messages@) =~= messages_view(before.header.messages@)
                + messages_view(all));
        }
    }
}

/// A header without continuation messages is complete at once.
pub proof fn lemma_no_continuation(m: Seq<MessageView>, ctx: FormatContext, n: nat)
    requires
        n <= m.len(),
        forall|i: int| 0 <= i < n ==> (#[trigger] m[i]).msg_type != MSG_OBJ_HEADER_CONTINUATION,
    ensures
        block_refs(m, ctx, n).len() == 0,
    decreases n,
{
    if n > 0 {
        lemma_no_continuation(m, ctx, (n - 1) as nat);
    }
}

/// No block is asked for twice: a block that is handed out has not been visited
/// before, and counts as visited from then on.
pub proof fn lemma_block_once(s: WalkState)
    ensures
        match next_block(s) {
            (Some(b), t) => !s.visited.contains(b.addr) && t.visited == s.visited.insert(b.addr)
                && t.blocks_read == s.blocks_read + 1 && t.blocks_read <= MAX_CONT_BLOCKS,
            (None, t) => true,
        },
    decreases s.pending.len(),
{
    if s.pending.len() > 0 && !readable(s.pending.last(), s.visited) {
        lemma_block_once(WalkState { pending: s.pending.drop_last(), ..s });
    }
}

} // verus!
