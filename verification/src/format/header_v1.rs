//! Object headers of version 1, as they are laid out in a file.
//!
//! Behind a prefix of 16 bytes stand the messages, each at a multiple of eight bytes: its
//! type and its size in two bytes each, its flags, three reserved bytes and its data.

use crate::format::bytes::le_value;
use crate::format::object_header::{
    is_v1, next_aligned, parsed_header_v1, parsed_messages_v1, prepended, MessageView,
};
use crate::format::ErrorView;
use vstd::prelude::*;

verus! {

/// Where message `i` begins.
pub open spec fn message_start(ms: Seq<MessageView>, i: nat) -> nat
    decreases i,
{
    if i == 0 {
        16
    } else {
        let n = ms[i - 1].data.len();
        message_start(ms, (i - 1) as nat) + 8 + n + padding(n)
    }
}

/// Bytes behind `n` bytes of data up to the next multiple of eight.
pub open spec fn padding(n: nat) -> nat {
    (7 - (n + 7) % 8) as nat
}

/// Whether the message at `at` is `m`.
pub open spec fn message_laid(buf: Seq<u8>, at: int, m: MessageView) -> bool {
    &&& buf[at] == m.msg_type
    &&& buf[at + 1] == 0
    &&& buf[at + 2] + 256 * buf[at + 3] == m.data.len()
    &&& buf[at + 4] == m.flags
    &&& buf.subrange(at + 8, at + 8 + m.data.len()) == m.data
}

/// Whether `buf` begins with a header of version 1 that holds these messages.
pub open spec fn header_laid(buf: Seq<u8>, ms: Seq<MessageView>) -> bool {
    let end = message_start(ms, ms.len());
    &&& buf.len() >= end
    &&& buf[0] == 1
    &&& buf[2] + 256 * buf[3] == ms.len()
    &&& buf[8] + 256 * (buf[9] + 256 * (buf[10] + 256 * buf[11])) == end - 16
    &&& forall|i: int|
        0 <= i < ms.len() ==> message_laid(
            buf,
            message_start(ms, i as nat) as int,
            #[trigger] ms[i],
        )
}

/// A number of two bytes.
pub proof fn lemma_two_bytes(buf: Seq<u8>, at: int)
    requires
        0 <= at,
        at + 2 <= buf.len(),
    ensures
        le_value(buf.subrange(at, at + 2)) == buf[at] + 256 * buf[at + 1],
{
    let s = buf.subrange(at, at + 2);
    reveal_with_fuel(le_value, 3);
    assert(s.drop_first()[0] == s[1]);
    assert(s.drop_first().drop_first().len() == 0);
}

proof fn lemma_four_bytes(buf: Seq<u8>, at: int)
    requires
        0 <= at,
        at + 4 <= buf.len(),
    ensures
        le_value(buf.subrange(at, at + 4)) == buf[at] + 256 * (buf[at + 1] + 256 * (buf[at + 2]
            + 256 * buf[at + 3])),
{
    let s = buf.subrange(at, at + 4);
    reveal_with_fuel(le_value, 5);
    let t = s.drop_first();
    assert(t[0] == s[1]);
    assert(t.drop_first()[0] == s[2]);
    assert(t.drop_first().drop_first()[0] == s[3]);
    assert(t.drop_first().drop_first().drop_first().len() == 0);
}

/// Starts of messages are multiples of eight, and grow.
proof fn lemma_starts(ms: Seq<MessageView>, i: nat, n: nat)
    requires
        i <= n <= ms.len(),
    ensures
        message_start(ms, i) % 8 == 0,
        16 <= message_start(ms, i) <= message_start(ms, n),
    decreases n,
{
    if i < n {
        lemma_starts(ms, i, (n - 1) as nat);
    } else if n > 0 {
        lemma_starts(ms, (n - 1) as nat, (n - 1) as nat);
    }
}

/// The messages that are no padding: padding has type zero.
pub open spec fn used(ms: Seq<MessageView>) -> Seq<MessageView>
    decreases ms.len(),
{
    if ms.len() == 0 {
        Seq::empty()
    } else if ms[0].msg_type == 0 {
        used(ms.drop_first())
    } else {
        seq![ms[0]] + used(ms.drop_first())
    }
}

proof fn lemma_next(pos: int, n: nat, end: int)
    requires
        pos >= 16,
        pos % 8 == 0,
        pos + 8 + n + padding(n) <= end,
    ensures
        next_aligned(pos + 8 + n, end) == pos + 8 + n + padding(n),
{
}

proof fn lemma_from(buf: Seq<u8>, ms: Seq<MessageView>, i: nat)
    requires
        header_laid(buf, ms),
        i <= ms.len(),
    ensures
        parsed_messages_v1(
            buf,
            message_start(ms, i) as int,
            message_start(ms, ms.len()) as int,
            (ms.len() - i) as nat,
        ) == Ok::<Seq<MessageView>, ErrorView>(used(ms.skip(i as int))),
    decreases ms.len() - i,
{
    let rest = ms.skip(i as int);
    if i < ms.len() {
        lemma_from(buf, ms, i + 1);
        let pos = message_start(ms, i) as int;
        let next = message_start(ms, i + 1) as int;
        let end = message_start(ms, ms.len()) as int;
        let m = ms[i as int];
        lemma_starts(ms, i, ms.len());
        lemma_starts(ms, i + 1, ms.len());
        assert(message_laid(buf, pos, ms[i as int]));
        lemma_two_bytes(buf, pos);
        lemma_two_bytes(buf, pos + 2);
        let n = m.data.len() as int;
        let data_end = pos + 8 + n;
        lemma_next(pos, m.data.len(), end);
        assert(data_end <= next <= end);
        assert(rest[0] == m);
        assert(rest.drop_first() =~= ms.skip(i as int + 1));
        let tail = used(ms.skip(i as int + 1));
        assert(Seq::<MessageView>::empty() + tail =~= tail);
        let after = parsed_messages_v1(buf, next, end, (ms.len() - i - 1) as nat);
        assert(after == Ok::<Seq<MessageView>, ErrorView>(tail));
        assert(le_value(buf.subrange(pos, pos + 2)) == m.msg_type);
        assert(le_value(buf.subrange(pos + 2, pos + 4)) == n);
        let one = if m.msg_type == 0 {
            Seq::empty()
        } else {
            seq![m]
        };
        assert(parsed_messages_v1(buf, pos, end, (ms.len() - i) as nat) == prepended(one, after))
            by {
            lemma_step(buf, pos, end, (ms.len() - i) as nat, m);
        }
    }
}

/// One message is taken off.
proof fn lemma_step(buf: Seq<u8>, pos: int, end: int, count: nat, m: MessageView)
    requires
        count > 0,
        0 <= pos,
        pos + 8 + m.data.len() <= end <= buf.len(),
        message_laid(buf, pos, m),
        le_value(buf.subrange(pos, pos + 2)) == m.msg_type,
        le_value(buf.subrange(pos + 2, pos + 4)) == m.data.len(),
    ensures
        parsed_messages_v1(buf, pos, end, count) == prepended(
            if m.msg_type == 0 {
                Seq::empty()
            } else {
                seq![m]
            },
            parsed_messages_v1(
                buf,
                next_aligned(pos + 8 + m.data.len(), end),
                end,
                (count - 1) as nat,
            ),
        ),
{
    assert(MessageView { msg_type: m.msg_type, flags: m.flags, data: m.data } == m);
}

/// Headers of version 1 read back: the messages that are laid out in a header are the
/// messages that it is decoded to, with their types, flags and data, in their order, and
/// the header takes the bytes up to the end of the last one. Messages of type zero are
/// padding and are left out.
pub proof fn lemma_header_v1_reads_back(buf: Seq<u8>, ms: Seq<MessageView>)
    requires
        header_laid(buf, ms),
    ensures
        is_v1(buf),
        parsed_header_v1(buf) matches Ok((h, n)) && h.messages == used(ms) && n == message_start(
            ms,
            ms.len(),
        ),
        (forall|i: int| 0 <= i < ms.len() ==> (#[trigger] ms[i]).msg_type != 0) ==> used(ms) == ms,
{
    lemma_starts(ms, 0, ms.len());
    lemma_two_bytes(buf, 2);
    lemma_four_bytes(buf, 8);
    lemma_from(buf, ms, 0);
    assert(ms.skip(0) =~= ms);
    assert(buf.subrange(0, 4)[0] == buf[0]);
    assert(seq![0x4fu8, 0x48, 0x44, 0x52][0] == 0x4f);
    if forall|i: int| 0 <= i < ms.len() ==> (#[trigger] ms[i]).msg_type != 0 {
        lemma_all_used(ms);
    }
}

proof fn lemma_all_used(ms: Seq<MessageView>)
    requires
        forall|i: int| 0 <= i < ms.len() ==> (#[trigger] ms[i]).msg_type != 0,
    ensures
        used(ms) == ms,
    decreases ms.len(),
{
    if ms.len() > 0 {
        let t = ms.drop_first();
        assert forall|i: int| 0 <= i < t.len() implies (#[trigger] t[i]).msg_type != 0 by {
            assert(t[i] == ms[i + 1]);
        }
        lemma_all_used(t);
        assert(seq![ms[0]] + t =~= ms);
    } else {
        assert(ms =~= Seq::empty());
    }
}

} // verus!
