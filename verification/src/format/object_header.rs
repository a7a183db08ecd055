//! Object headers: the list of messages that describes a group or a dataset.
//!
//! Version 2 headers start with the signature "OHDR" and end with a checksum:
//!
//! ```text
//! "OHDR"
//! version (1 byte): 2
//! flags (1 byte):
//!   bits 0-1: width of the size field (1, 2, 4 or 8 bytes)
//!   bit 2:    messages carry a creation order
//!   bit 4:    attribute storage thresholds are stored
//!   bit 5:    timestamps are stored
//! [bit 5: four 32-bit timestamps]
//! [bit 4: two 16-bit thresholds]
//! size of the messages
//! messages: type (1), size (2), flags (1), [bit 2: creation order (2)], data
//! checksum (4)
//! ```
//!
//! Version 1 headers have neither signature nor checksum, and pad messages to
//! multiples of eight bytes.

use crate::format::bytes::{
    copy_range, filled, le_bytes, le_value, lemma_le_bytes_len, lemma_le_roundtrip_exact,
    lemma_pow256_values, pow256, push_le, push_slice, read_le_at,
};
use crate::format::checksum::{checksum, checksum_metadata};
use crate::format::{too_short, ErrorView, FormatError, FormatResult};
use crate::text::{append_decimal, decimal};
use vstd::prelude::*;
use vstd::slice::slice_subrange;
use vstd::string::StringExecFns;

verus! {

/// The signature of a version 2 header.
pub const OHDR_SIGNATURE: [u8; 4] = [0x4f, 0x48, 0x44, 0x52];

/// Object header version 2.
pub const OHDR_VERSION: u8 = 2;

/// A message of an object header.
#[derive(Debug, Clone, PartialEq, Eq)]
pub struct ObjectHeaderMessage {
    /// Message type.
    pub msg_type: u8,
    /// Message flags (bit 0: constant, bit 1: shared).
    pub flags: u8,
    /// The message itself.
    pub data: Vec<u8>,
}

/// An object header.
#[derive(Debug, Clone, PartialEq, Eq)]
pub struct ObjectHeader {
    /// Header flags.
    pub flags: u8,
    /// The messages, in order.
    pub messages: Vec<ObjectHeaderMessage>,
}

/// What a message says.
#[verifier::ext_equal]
pub struct MessageView {
    pub msg_type: u8,
    pub flags: u8,
    pub data: Seq<u8>,
}

/// What an object header says.
#[verifier::ext_equal]
pub struct HeaderView {
    pub flags: u8,
    pub messages: Seq<MessageView>,
}

impl View for ObjectHeaderMessage {
    type V = MessageView;

    open spec fn view(&self) -> MessageView {
        MessageView { msg_type: self.msg_type, flags: self.flags, data: self.data@ }
    }
}

/// What a list of messages says.
pub open spec fn messages_view(ms: Seq<ObjectHeaderMessage>) -> Seq<MessageView> {
    Seq::new(ms.len(), |i: int| ms[i]@)
}

impl View for ObjectHeader {
    type V = HeaderView;

    open spec fn view(&self) -> HeaderView {
        HeaderView { flags: self.flags, messages: messages_view(self.messages@) }
    }
}

/// Whether messages carry a creation order.
pub open spec fn ordered(flags: u8) -> bool {
    flags as nat / 4 % 2 == 1
}

/// Whether attribute storage thresholds are stored.
pub open spec fn thresholds(flags: u8) -> bool {
    flags as nat / 16 % 2 == 1
}

/// Whether timestamps are stored.
pub open spec fn timestamps(flags: u8) -> bool {
    flags as nat / 32 % 2 == 1
}

/// Bytes of the size field.
pub open spec fn size_width(flags: u8) -> nat {
    if flags % 4 == 0 {
        1
    } else if flags % 4 == 1 {
        2
    } else if flags % 4 == 2 {
        4
    } else {
        8
    }
}

/// Bytes in front of the data of a message.
pub open spec fn overhead(flags: u8) -> nat {
    if ordered(flags) {
        6
    } else {
        4
    }
}

/// Bytes in front of the size field.
pub open spec fn fixed_part(flags: u8) -> nat {
    6 + (if timestamps(flags) {
        16nat
    } else {
        0
    }) + (if thresholds(flags) {
        4nat
    } else {
        0
    })
}

/// The bytes of a message.
pub open spec fn message_bytes(m: MessageView, flags: u8) -> Seq<u8> {
    seq![m.msg_type] + le_bytes(m.data.len(), 2) + seq![m.flags] + (if ordered(flags) {
        seq![0u8, 0u8]
    } else {
        Seq::empty()
    }) + m.data
}

/// The bytes of all messages.
pub open spec fn messages_bytes(ms: Seq<MessageView>, flags: u8) -> Seq<u8>
    decreases ms.len(),
{
    if ms.len() == 0 {
        Seq::empty()
    } else {
        messages_bytes(ms.drop_last(), flags) + message_bytes(ms.last(), flags)
    }
}

/// Number of bytes of all messages.
pub open spec fn messages_len(ms: Seq<MessageView>, flags: u8) -> nat
    decreases ms.len(),
{
    if ms.len() == 0 {
        0
    } else {
        messages_len(ms.drop_last(), flags) + overhead(flags) + ms.last().data.len()
    }
}

/// What stands in front of the size field: no times are recorded, and the
/// thresholds are eight and six attributes.
pub open spec fn prefix_bytes(flags: u8) -> Seq<u8> {
    seq![0x4fu8, 0x48, 0x44, 0x52, 2, flags] + (if timestamps(flags) {
        Seq::new(16, |i: int| 0u8)
    } else {
        Seq::empty()
    }) + (if thresholds(flags) {
        seq![8u8, 0, 6, 0]
    } else {
        Seq::empty()
    })
}

/// The bytes that the checksum covers.
pub open spec fn header_body(h: HeaderView) -> Seq<u8> {
    prefix_bytes(h.flags) + le_bytes(messages_len(h.messages, h.flags), size_width(h.flags))
        + messages_bytes(h.messages, h.flags)
}

/// The bytes of a header.
pub open spec fn header_bytes(h: HeaderView) -> Seq<u8> {
    header_body(h) + le_bytes(checksum(header_body(h)) as nat, 4)
}

/// `rest` behind `done`, or the error of `rest`.
pub open spec fn prepended(
    done: Seq<MessageView>,
    rest: Result<Seq<MessageView>, ErrorView>,
) -> Result<Seq<MessageView>, ErrorView> {
    match rest {
        Ok(ms) => Ok(done + ms),
        Err(e) => Err(e),
    }
}

/// The messages in `buf[pos..end]` of a version 2 header. Fewer bytes than a
/// message takes, at the end, are a gap.
pub open spec fn parsed_messages(buf: Seq<u8>, pos: int, end: int, flags: u8) -> Result<
    Seq<MessageView>,
    ErrorView,
>
    decreases end - pos,
{
    let at = pos + overhead(flags);
    if at > end {
        Ok(Seq::empty())
    } else {
        let size = le_value(buf.subrange(pos + 1, pos + 3));
        if at + size > end {
            Err(
                ErrorView::InvalidData(
                    "message data ("@ + decimal(size) + " bytes) extends past chunk0 boundary"@,
                ),
            )
        } else {
            prepended(
                seq![
                    MessageView {
                        msg_type: buf[pos],
                        flags: buf[pos + 3],
                        data: buf.subrange(at as int, (at + size) as int),
                    },
                ],
                parsed_messages(buf, (at + size) as int, end, flags),
            )
        }
    }
}

/// The header that `buf` starts with, and how many bytes it takes.
pub open spec fn parsed_header(buf: Seq<u8>) -> Result<(HeaderView, nat), ErrorView> {
    let flags = buf[5];
    let stamps_end: nat = if timestamps(flags) {
        22
    } else {
        6
    };
    let size_at = fixed_part(flags);
    let width = size_width(flags);
    let size = le_value(buf.subrange(size_at as int, (size_at + width) as int));
    let start = size_at + width;
    let end = start + size;
    let short = |needed: nat| ErrorView::BufferTooShort { needed, available: buf.len() };
    if buf.len() < 11 {
        Err(short(11))
    } else if buf.subrange(0, 4) != seq![0x4fu8, 0x48, 0x44, 0x52] {
        Err(ErrorView::InvalidSignature)
    } else if buf[4] != 2 {
        Err(ErrorView::InvalidVersion(buf[4]))
    } else if timestamps(flags) && buf.len() < stamps_end {
        Err(short(stamps_end))
    } else if thresholds(flags) && buf.len() < size_at {
        Err(short(size_at))
    } else if buf.len() < start {
        Err(short(start))
    } else if end + 4 > usize::MAX {
        Err(ErrorView::InvalidData("object header chunk-0 size overflows usize"@))
    } else if buf.len() < end + 4 {
        Err(short(end + 4))
    } else {
        let stored = le_value(buf.subrange(end as int, (end + 4) as int)) as u32;
        let computed = checksum(buf.take(end as int));
        if stored != computed {
            Err(ErrorView::ChecksumMismatch { expected: stored, computed })
        } else {
            match parsed_messages(buf, start as int, end as int, flags) {
                Ok(messages) => Ok((HeaderView { flags, messages }, end + 4)),
                Err(e) => Err(e),
            }
        }
    }
}

/// Where the message behind the one that ends at `pos` starts: at a multiple of
/// eight bytes from the start of the messages, if that is within the header.
pub open spec fn next_aligned(pos: int, end: int) -> int {
    let aligned = 16 + (pos - 16 + 7) / 8 * 8;
    if aligned <= end {
        aligned
    } else {
        pos
    }
}

/// At most `count` messages in `buf[pos..end]` of a version 1 header. Messages
/// of type zero are padding.
pub open spec fn parsed_messages_v1(buf: Seq<u8>, pos: int, end: int, count: nat) -> Result<
    Seq<MessageView>,
    ErrorView,
>
    decreases count,
{
    if count == 0 || pos + 8 > end {
        Ok(Seq::empty())
    } else {
        let kind = le_value(buf.subrange(pos, pos + 2));
        let size = le_value(buf.subrange(pos + 2, pos + 4));
        let data_end = pos + 8 + size;
        if data_end > end {
            Err(
                ErrorView::InvalidData(
                    "v1 message data ("@ + decimal(size) + " bytes) extends past header boundary"@,
                ),
            )
        } else {
            prepended(
                if kind == 0 {
                    Seq::empty()
                } else {
                    seq![
                        MessageView {
                            msg_type: (kind % 256) as u8,
                            flags: buf[pos + 4],
                            data: buf.subrange(pos + 8, data_end),
                        },
                    ]
                },
                parsed_messages_v1(buf, next_aligned(data_end, end), end, (count - 1) as nat),
            )
        }
    }
}

/// `n`, or the largest length that a buffer can have if that is less.
pub open spec fn addressable(n: nat) -> nat {
    if n <= usize::MAX {
        n
    } else {
        usize::MAX as nat
    }
}

/// The version 1 header that `buf` starts with, and how many bytes it takes.
pub open spec fn parsed_header_v1(buf: Seq<u8>) -> Result<(HeaderView, nat), ErrorView> {
    let count = le_value(buf.subrange(2, 4));
    let end = 16 + le_value(buf.subrange(8, 12));
    if buf.len() < 16 {
        Err(ErrorView::BufferTooShort { needed: 16, available: buf.len() })
    } else if buf[0] != 1 {
        Err(ErrorView::InvalidVersion(buf[0]))
    } else if buf.len() < end {
        Err(ErrorView::BufferTooShort { needed: addressable(end), available: buf.len() })
    } else {
        match parsed_messages_v1(buf, 16, end as int, count) {
            Ok(messages) => Ok((HeaderView { flags: 2, messages }, end)),
            Err(e) => Err(e),
        }
    }
}

/// Whether `buf` is read as a version 1 header: it lacks the signature of version 2.
pub open spec fn is_v1(buf: Seq<u8>) -> bool {
    !(buf.len() >= 4 && buf.subrange(0, 4) == seq![0x4fu8, 0x48, 0x44, 0x52])
}

/// What a decoding function returns.
pub open spec fn decoded_view(r: FormatResult<(ObjectHeader, usize)>) -> Result<
    (HeaderView, nat),
    ErrorView,
> {
    match r {
        Ok((h, n)) => Ok((h@, n as nat)),
        Err(e) => Err(e@),
    }
}

/// The error about message data that does not fit.
fn past_end(head: &str, size: usize, tail: &str) -> (e: FormatError)
    ensures
        e@ == ErrorView::InvalidData(head@ + decimal(size as nat) + tail@),
{
    let mut s = head.to_owned();
    append_decimal(&mut s, size as u64);
    s.append(tail);
    FormatError::InvalidData(s)
}

fn has_signature(buf: &[u8]) -> (r: bool)
    requires
        buf@.len() >= 4,
    ensures
        r == (buf@.subrange(0, 4) == seq![0x4fu8, 0x48, 0x44, 0x52]),
{
    let ghost head = buf@.subrange(0, 4);
    let r: bool = buf[0] == 0x4f && buf[1] == 0x48 && buf[2] == 0x44 && buf[3] == 0x52;
    proof {
        assert(head[0] == buf@[0] && head[1] == buf@[1] && head[2] == buf@[2] && head[3] == buf@[3]);
        if r {
            assert(head =~= seq![0x4fu8, 0x48, 0x44, 0x52]);
        } else {
            let want = seq![0x4fu8, 0x48, 0x44, 0x52];
            assert(want[0] == 0x4f && want[1] == 0x48 && want[2] == 0x44 && want[3] == 0x52);
        }
    }
    r
}

impl ObjectHeader {
    /// A header without messages, with a size field of four bytes and nothing
    /// optional.
    pub fn new() -> (h: Self)
        ensures
            h@ == (HeaderView { flags: 2, messages: Seq::empty() }),
    {
        let h = ObjectHeader { flags: 0x02, messages: Vec::new() };
        assert(h@.messages =~= Seq::<MessageView>::empty());
        h
    }

    /// Append a message.
    pub fn add_message(&mut self, msg_type: u8, flags: u8, data: Vec<u8>)
        ensures
            final(self)@ == (HeaderView {
                flags: old(self)@.flags,
                messages: old(self)@.messages.push(MessageView { msg_type, flags, data: data@ }),
            }),
    {
        let ghost d = data@;
        self.messages.push(ObjectHeaderMessage { msg_type, flags, data });
        assert(self@.messages =~= old(self)@.messages.push(
            MessageView { msg_type, flags, data: d },
        ));
    }

    /// Bytes of the size field.
    fn chunk0_size_bytes(flags: u8) -> (n: usize)
        ensures
            n == size_width(flags),
    {
        let k: u8 = flags % 4;
        if k == 0 {
            1
        } else if k == 1 {
            2
        } else if k == 2 {
            4
        } else {
            8
        }
    }

    /// Bytes of all messages.
    fn messages_data_size(&self) -> (n: usize)
        requires
            messages_len(self@.messages, self.flags) <= usize::MAX,
        ensures
            n == messages_len(self@.messages, self.flags),
    {
        let per_message: usize = if self.flags / 4 % 2 == 1 {
            6
        } else {
            4
        };
        let ghost ms = self@.messages;
        let mut n: usize = 0;
        let mut i: usize = 0;
        while i < self.messages.len()
            invariant
                i <= self.messages@.len(),
                ms == self@.messages,
                per_message == overhead(self.flags),
                messages_len(ms, self.flags) <= usize::MAX,
                n == messages_len(ms.take(i as int), self.flags),
            decreases self.messages@.len() - i,
        {
            proof {
                let t = ms.take(i + 1);
                assert(t.drop_last() =~= ms.take(i as int));
                assert(t.last() == self.messages@[i as int]@);
                lemma_messages_len_grows(ms, self.flags, i + 1);
            }
            n = n + per_message + self.messages[i].data.len();
            i = i + 1;
        }
        assert(ms.take(i as int) =~= ms);
        n
    }

    /// The bytes of the header, the checksum included.
    ///
    /// A size that does not fit in its field is cut to the field.
    pub fn encode(&self) -> (buf: Vec<u8>)
        requires
            messages_len(self@.messages, self.flags) <= usize::MAX,
        ensures
            buf@ == header_bytes(self@),
    {
        let flags: u8 = self.flags;
        let size: usize = self.messages_data_size();
        let mut buf: Vec<u8> = Vec::new();
        buf.push(0x4f);
        buf.push(0x48);
        buf.push(0x44);
        buf.push(0x52);
        buf.push(OHDR_VERSION);
        buf.push(flags);
        if flags / 32 % 2 == 1 {
            let zeros = filled(16, 0);
            push_slice(&mut buf, zeros.as_slice());
        }
        if flags / 16 % 2 == 1 {
            buf.push(8);
            buf.push(0);
            buf.push(6);
            buf.push(0);
        }
        assert(buf@ =~= prefix_bytes(flags));
        push_le(&mut buf, size as u64, Self::chunk0_size_bytes(flags));
        let ghost ms = self@.messages;
        let ghost head = buf@;
        let order: bool = flags / 4 % 2 == 1;
        let mut i: usize = 0;
        assert(buf@ =~= head + messages_bytes(ms.take(0), flags));
        while i < self.messages.len()
            invariant
                i <= self.messages@.len(),
                ms == self@.messages,
                flags == self.flags,
                order == ordered(flags),
                buf@ == head + messages_bytes(ms.take(i as int), flags),
            decreases self.messages@.len() - i,
        {
            let ghost before = buf@;
            let m = &self.messages[i];
            buf.push(m.msg_type);
            push_le(&mut buf, m.data.len() as u64, 2);
            buf.push(m.flags);
            if order {
                buf.push(0);
                buf.push(0);
            }
            push_slice(&mut buf, m.data.as_slice());
            proof {
                let t = ms.take(i + 1);
                assert(t.drop_last() =~= ms.take(i as int));
                assert(t.last() == self.messages@[i as int]@);
                assert(buf@ =~= before + message_bytes(t.last(), flags));
                assert(buf@ =~= head + messages_bytes(t, flags));
            }
            i = i + 1;
        }
        assert(ms.take(i as int) =~= ms);
        assert(buf@ =~= header_body(self@));
        let sum: u32 = checksum_metadata(buf.as_slice());
        push_le(&mut buf, sum as u64, 4);
        buf
    }

    /// Decode a version 2 header at the start of `buf`. Returns the header and
    /// how many bytes it takes.
    pub fn decode(buf: &[u8]) -> (r: FormatResult<(Self, usize)>)
        ensures
            decoded_view(r) == parsed_header(buf@),
    {
        let len: usize = buf.len();
        if len < 11 {
            return Err(too_short(11, len));
        }
        if !has_signature(buf) {
            return Err(FormatError::InvalidSignature);
        }
        let version: u8 = buf[4];
        if version != OHDR_VERSION {
            return Err(FormatError::InvalidVersion(version));
        }
        let flags: u8 = buf[5];
        let mut pos: usize = 6;
        if flags / 32 % 2 == 1 {
            if len < pos + 16 {
                return Err(too_short(pos + 16, len));
            }
            pos = pos + 16;
        }
        if flags / 16 % 2 == 1 {
            if len < pos + 4 {
                return Err(too_short(pos + 4, len));
            }
            pos = pos + 4;
        }
        assert(pos == fixed_part(flags));
        let width: usize = Self::chunk0_size_bytes(flags);
        if len < pos + width {
            return Err(too_short(pos + width, len));
        }
        let size: u64 = read_le_at(buf, pos, width);
        let start: usize = pos + width;
        let end: u128 = start as u128 + size as u128;
        if end + 4 > usize::MAX as u128 {
            return Err(
                FormatError::InvalidData("object header chunk-0 size overflows usize".to_owned()),
            );
        }
        let end: usize = end as usize;
        if len < end + 4 {
            return Err(too_short(end + 4, len));
        }
        proof {
            lemma_pow256_values();
        }
        let stored: u32 = read_le_at(buf, end, 4) as u32;
        assert(buf@.subrange(0, end as int) =~= buf@.take(end as int));
        let computed: u32 = checksum_metadata(slice_subrange(buf, 0, end));
        if stored != computed {
            return Err(FormatError::ChecksumMismatch { expected: stored, computed });
        }
        match decode_messages(buf, start, end, flags) {
            Ok(messages) => Ok((ObjectHeader { flags, messages }, end + 4)),
            Err(e) => Err(e),
        }
    }

    /// Decode a version 1 header at the start of `buf`. Returns the header and
    /// how many bytes it takes.
    pub fn decode_v1(buf: &[u8]) -> (r: FormatResult<(Self, usize)>)
        ensures
            decoded_view(r) == parsed_header_v1(buf@),
    {
        let len: usize = buf.len();
        if len < 16 {
            return Err(too_short(16, len));
        }
        let version: u8 = buf[0];
        if version != 1 {
            return Err(FormatError::InvalidVersion(version));
        }
        proof {
            lemma_pow256_values();
        }
        let count: u16 = read_le_at(buf, 2, 2) as u16;
        let size: u64 = read_le_at(buf, 8, 4);
        if size > usize::MAX as u64 - 16 {
            return Err(too_short(usize::MAX, len));
        }
        let end: usize = 16 + size as usize;
        if len < end {
            return Err(too_short(end, len));
        }
        match decode_messages_v1(buf, end, count) {
            Ok(messages) => Ok((ObjectHeader { flags: 0x02, messages }, end)),
            Err(e) => Err(e),
        }
    }

    /// Decode a header of either version at the start of `buf`.
    ///
    /// The signature tells version 2; without it the header is read as version 1.
    pub fn decode_any(buf: &[u8]) -> (r: FormatResult<(Self, usize)>)
        ensures
            decoded_view(r) == if is_v1(buf@) {
                parsed_header_v1(buf@)
            } else {
                parsed_header(buf@)
            },
    {
        if buf.len() >= 4 && has_signature(buf) {
            Self::decode(buf)
        } else {
            Self::decode_v1(buf)
        }
    }
}

impl Default for ObjectHeader {
    fn default() -> (h: Self)
        ensures
            h@ == (HeaderView { flags: 2, messages: Seq::empty() }),
    {
        Self::new()
    }
}

/// What parsing messages returns.
pub open spec fn messages_result(r: FormatResult<Vec<ObjectHeaderMessage>>) -> Result<
    Seq<MessageView>,
    ErrorView,
> {
    match r {
        Ok(ms) => Ok(messages_view(ms@)),
        Err(e) => Err(e@),
    }
}

/// Decode the messages of a version 2 header.
fn decode_messages(buf: &[u8], start: usize, end: usize, flags: u8) -> (r: FormatResult<
    Vec<ObjectHeaderMessage>,
>)
    requires
        start <= end <= buf@.len(),
        end + 4 <= usize::MAX,
    ensures
        messages_result(r) == parsed_messages(buf@, start as int, end as int, flags),
{
    let per_message: usize = if flags / 4 % 2 == 1 {
        6
    } else {
        4
    };
    let ghost want = parsed_messages(buf@, start as int, end as int, flags);
    let mut messages: Vec<ObjectHeaderMessage> = Vec::new();
    let mut pos: usize = start;
    proof {
        assert(messages_view(messages@) =~= Seq::<MessageView>::empty());
        lemma_prepended_empty(want);
    }
    while per_message <= end - pos
        invariant
            start <= pos <= end <= buf@.len(),
            end + 4 <= usize::MAX,
            per_message == overhead(flags),
            want == parsed_messages(buf@, start as int, end as int, flags),
            prepended(
                messages_view(messages@),
                parsed_messages(buf@, pos as int, end as int, flags),
            ) == want,
        decreases end - pos,
    {
        proof {
            lemma_pow256_values();
        }
        let size: usize = read_le_at(buf, pos + 1, 2) as usize;
        let at: usize = pos + per_message;
        if size > end - at {
            return Err(past_end("message data (", size, " bytes) extends past chunk0 boundary"));
        }
        let m = ObjectHeaderMessage {
            msg_type: buf[pos],
            flags: buf[pos + 3],
            data: copy_range(buf, at, at + size),
        };
        let ghost done = messages_view(messages@);
        let ghost mv = m@;
        messages.push(m);
        proof {
            assert(messages_view(messages@) =~= done.push(mv));
            lemma_prepended_push(
                done,
                mv,
                parsed_messages(buf@, at + size, end as int, flags),
            );
        }
        pos = at + size;
    }
    proof {
        assert(messages_view(messages@) + Seq::<MessageView>::empty() =~= messages_view(messages@));
    }
    Ok(messages)
}

/// Where the next message of a version 1 header starts.
fn next_message(data_end: usize, end: usize) -> (next: usize)
    requires
        16 <= data_end <= end,
    ensures
        next == next_aligned(data_end as int, end as int),
        data_end <= next <= end,
{
    let pad: usize = (8 - (data_end - 16) % 8) % 8;
    if pad <= end - data_end {
        data_end + pad
    } else {
        data_end
    }
}

/// Decode the messages of a version 1 header.
fn decode_messages_v1(buf: &[u8], end: usize, count: u16) -> (r: FormatResult<
    Vec<ObjectHeaderMessage>,
>)
    requires
        16 <= end <= buf@.len(),
    ensures
        messages_result(r) == parsed_messages_v1(buf@, 16, end as int, count as nat),
{
    let ghost want = parsed_messages_v1(buf@, 16, end as int, count as nat);
    let mut messages: Vec<ObjectHeaderMessage> = Vec::new();
    let mut pos: usize = 16;
    let mut left: u16 = count;
    proof {
        assert(messages_view(messages@) =~= Seq::<MessageView>::empty());
        lemma_prepended_empty(want);
    }
    while left > 0 && 8 <= end - pos
        invariant
            16 <= pos <= end <= buf@.len(),
            want == parsed_messages_v1(buf@, 16, end as int, count as nat),
            prepended(
                messages_view(messages@),
                parsed_messages_v1(buf@, pos as int, end as int, left as nat),
            ) == want,
        decreases left,
    {
        proof {
            lemma_pow256_values();
        }
        let kind: u16 = read_le_at(buf, pos, 2) as u16;
        let size: usize = read_le_at(buf, pos + 2, 2) as usize;
        let at: usize = pos + 8;
        if size > end - at {
            return Err(past_end("v1 message data (", size, " bytes) extends past header boundary"));
        }
        let data_end: usize = at + size;
        let next: usize = next_message(data_end, end);
        let ghost done = messages_view(messages@);
        let ghost rest = parsed_messages_v1(buf@, next as int, end as int, (left - 1) as nat);
        if kind != 0 {
            let m = ObjectHeaderMessage {
                msg_type: (kind % 256) as u8,
                flags: buf[pos + 4],
                data: copy_range(buf, at, data_end),
            };
            let ghost mv = m@;
            messages.push(m);
            proof {
                assert(messages_view(messages@) =~= done.push(mv));
                lemma_prepended_push(done, mv, rest);
            }
        } else {
            proof {
                lemma_prepended_empty(rest);
            }
        }
        pos = next;
        left = left - 1;
    }
    proof {
        assert(messages_view(messages@) + Seq::<MessageView>::empty() =~= messages_view(messages@));
    }
    Ok(messages)
}

proof fn lemma_prepended_empty(r: Result<Seq<MessageView>, ErrorView>)
    ensures
        prepended(Seq::empty(), r) == r,
{
    if let Ok(ms) = r {
        assert(Seq::<MessageView>::empty() + ms =~= ms);
    }
}

proof fn lemma_prepended_push(
    done: Seq<MessageView>,
    m: MessageView,
    r: Result<Seq<MessageView>, ErrorView>,
)
    ensures
        prepended(done.push(m), r) == prepended(done, prepended(seq![m], r)),
{
    if let Ok(ms) = r {
        assert(done.push(m) + ms =~= done + (seq![m] + ms));
    }
}

proof fn lemma_messages_len_grows(ms: Seq<MessageView>, flags: u8, n: int)
    requires
        0 <= n <= ms.len(),
    ensures
        messages_len(ms.take(n), flags) <= messages_len(ms, flags),
    decreases ms.len() - n,
{
    if n == ms.len() {
        assert(ms.take(n) =~= ms);
    } else {
        lemma_messages_len_grows(ms, flags, n + 1);
        assert(ms.take(n + 1).drop_last() =~= ms.take(n));
    }
}

proof fn lemma_message_bytes_len(m: MessageView, flags: u8)
    ensures
        message_bytes(m, flags).len() == overhead(flags) + m.data.len(),
{
    lemma_le_bytes_len(m.data.len(), 2);
}

pub proof fn lemma_messages_bytes_len(ms: Seq<MessageView>, flags: u8)
    ensures
        messages_bytes(ms, flags).len() == messages_len(ms, flags),
    decreases ms.len(),
{
    if ms.len() > 0 {
        lemma_messages_bytes_len(ms.drop_last(), flags);
        lemma_message_bytes_len(ms.last(), flags);
    }
}

/// Where message `i` stands.
pub proof fn lemma_message_at(ms: Seq<MessageView>, flags: u8, i: int)
    requires
        0 <= i < ms.len(),
    ensures
        messages_len(ms.take(i + 1), flags) == messages_len(ms.take(i), flags) + overhead(flags)
            + ms[i].data.len(),
        messages_len(ms.take(i + 1), flags) <= messages_len(ms, flags),
        messages_bytes(ms, flags).len() == messages_len(ms, flags),
        messages_bytes(ms, flags).subrange(
            messages_len(ms.take(i), flags) as int,
            messages_len(ms.take(i + 1), flags) as int,
        ) == message_bytes(ms[i], flags),
    decreases ms.len(),
{
    let all = messages_bytes(ms, flags);
    let front = ms.drop_last();
    assert(ms.take(i + 1).drop_last() =~= ms.take(i));
    assert(ms.take(i + 1).last() == ms[i]);
    lemma_messages_bytes_len(ms, flags);
    lemma_messages_bytes_len(front, flags);
    lemma_message_bytes_len(ms.last(), flags);
    lemma_messages_len_grows(ms, flags, i + 1);
    let from = messages_len(ms.take(i), flags) as int;
    let to = messages_len(ms.take(i + 1), flags) as int;
    if i == ms.len() - 1 {
        assert(ms.take(i) =~= front);
        assert(ms.take(i + 1) =~= ms);
        assert(all.subrange(from, to) =~= message_bytes(ms[i], flags));
    } else {
        lemma_message_at(front, flags, i);
        assert(front.take(i) =~= ms.take(i));
        assert(front.take(i + 1) =~= ms.take(i + 1));
        assert(all.subrange(from, to) =~= messages_bytes(front, flags).subrange(from, to));
    }
}

/// Whether every message is short enough for its size field.
pub open spec fn messages_fit(ms: Seq<MessageView>) -> bool {
    forall|i: int| 0 <= i < ms.len() ==> (#[trigger] ms[i]).data.len() <= 0xffff
}

/// The fields of a message, read back.
pub proof fn lemma_message_fields(m: MessageView, flags: u8, buf: Seq<u8>, pos: int)
    requires
        m.data.len() <= 0xffff,
        0 <= pos,
        pos + overhead(flags) + m.data.len() <= buf.len(),
        buf.subrange(pos, pos + overhead(flags) + m.data.len()) == message_bytes(m, flags),
    ensures
        buf[pos] == m.msg_type,
        le_value(buf.subrange(pos + 1, pos + 3)) == m.data.len(),
        buf[pos + 3] == m.flags,
        buf.subrange(pos + overhead(flags), pos + overhead(flags) + m.data.len()) == m.data,
{
    let bytes = message_bytes(m, flags);
    let whole = buf.subrange(pos, pos + overhead(flags) + m.data.len());
    let n = m.data.len();
    lemma_le_bytes_len(n, 2);
    lemma_pow256_values();
    lemma_le_roundtrip_exact(n, 2);
    assert(whole[0] == bytes[0]);
    assert(whole[3] == bytes[3]);
    assert(buf.subrange(pos + 1, pos + 3) =~= bytes.subrange(1, 3)) by {
        assert(whole[1] == bytes[1]);
        assert(whole[2] == bytes[2]);
    }
    assert(bytes.subrange(1, 3) =~= le_bytes(n, 2));
    assert(buf.subrange(pos + overhead(flags), pos + overhead(flags) + n) =~= m.data) by {
        assert forall|k: int| 0 <= k < n implies buf[pos + overhead(flags) + k] == m.data[k] by {
            assert(whole[overhead(flags) + k] == bytes[overhead(flags) + k]);
        }
    }
}

/// Reading messages from message `i` on gives the messages from there on.
proof fn lemma_parsed_from(ms: Seq<MessageView>, flags: u8, buf: Seq<u8>, start: int, i: int)
    requires
        messages_fit(ms),
        0 <= start,
        start + messages_len(ms, flags) <= buf.len(),
        buf.subrange(start, start + messages_len(ms, flags)) == messages_bytes(ms, flags),
        0 <= i <= ms.len(),
    ensures
        parsed_messages(
            buf,
            start + messages_len(ms.take(i), flags),
            start + messages_len(ms, flags),
            flags,
        ) == Ok::<Seq<MessageView>, ErrorView>(ms.skip(i)),
    decreases ms.len() - i,
{
    let end = start + messages_len(ms, flags);
    let pos = start + messages_len(ms.take(i), flags);
    if i == ms.len() {
        assert(ms.take(i) =~= ms);
        assert(ms.skip(i) =~= Seq::<MessageView>::empty());
    } else {
        lemma_message_at(ms, flags, i);
        lemma_parsed_from(ms, flags, buf, start, i + 1);
        let m = ms[i];
        let next = start + messages_len(ms.take(i + 1), flags);
        assert(buf.subrange(pos, next) =~= buf.subrange(start, end).subrange(
            pos - start,
            next - start,
        ));
        lemma_message_fields(m, flags, buf, pos);
        assert(seq![m] + ms.skip(i + 1) =~= ms.skip(i));
        assert(MessageView { msg_type: m.msg_type, flags: m.flags, data: m.data } == m);
    }
}

/// The parts of an encoded header.
proof fn lemma_header_parts(h: HeaderView, tail: Seq<u8>)
    ensures
        ({
            let buf = header_bytes(h) + tail;
            let start = fixed_part(h.flags) + size_width(h.flags);
            let end = start + messages_len(h.messages, h.flags);
            &&& header_body(h).len() == end
            &&& header_bytes(h).len() == end + 4
            &&& buf.subrange(0, 4) == seq![0x4fu8, 0x48, 0x44, 0x52]
            &&& buf[4] == 2
            &&& buf[5] == h.flags
            &&& buf.subrange(fixed_part(h.flags) as int, start as int) == le_bytes(
                messages_len(h.messages, h.flags),
                size_width(h.flags),
            )
            &&& buf.subrange(start as int, end as int) == messages_bytes(h.messages, h.flags)
            &&& buf.take(end as int) == header_body(h)
            &&& buf.subrange(end as int, (end + 4) as int) == le_bytes(
                checksum(header_body(h)) as nat,
                4,
            )
        }),
{
    let buf = header_bytes(h) + tail;
    let width = size_width(h.flags);
    let n = messages_len(h.messages, h.flags);
    let fixed = fixed_part(h.flags);
    let start = fixed + width;
    let end = start + n;
    let prefix = prefix_bytes(h.flags);
    lemma_le_bytes_len(n, width);
    lemma_messages_bytes_len(h.messages, h.flags);
    lemma_le_bytes_len(checksum(header_body(h)) as nat, 4);
    assert(prefix.len() == fixed);
    assert(buf.subrange(0, 4) =~= seq![0x4fu8, 0x48, 0x44, 0x52]);
    assert(buf.subrange(fixed as int, start as int) =~= le_bytes(n, width));
    assert(buf.subrange(start as int, end as int) =~= messages_bytes(h.messages, h.flags));
    assert(buf.take(end as int) =~= header_body(h));
    assert(buf.subrange(end as int, (end + 4) as int) =~= le_bytes(
        checksum(header_body(h)) as nat,
        4,
    ));
}

/// Decoding what was encoded gives the header back, and ignores what follows
/// it, for every header whose sizes fit in their fields.
pub proof fn lemma_header_roundtrip(h: HeaderView, tail: Seq<u8>)
    requires
        messages_fit(h.messages),
        messages_len(h.messages, h.flags) < pow256(size_width(h.flags)),
        header_bytes(h).len() <= usize::MAX,
    ensures
        !is_v1(header_bytes(h) + tail),
        parsed_header(header_bytes(h) + tail) == Ok::<(HeaderView, nat), ErrorView>(
            (h, header_bytes(h).len()),
        ),
{
    let buf = header_bytes(h) + tail;
    let width = size_width(h.flags);
    let n = messages_len(h.messages, h.flags);
    let start = fixed_part(h.flags) + width;
    lemma_header_parts(h, tail);
    lemma_le_roundtrip_exact(n, width);
    lemma_pow256_values();
    lemma_le_roundtrip_exact(checksum(header_body(h)) as nat, 4);
    lemma_parsed_from(h.messages, h.flags, buf, start as int, 0);
    assert(messages_len(h.messages.take(0), h.flags) == 0);
    assert(h.messages.skip(0) =~= h.messages);
    assert(HeaderView { flags: h.flags, messages: h.messages } == h);
}

} // verus!
