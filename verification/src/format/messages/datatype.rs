//! Datatype messages.

use vstd::prelude::*;

verus! {

/// Byte order of a number.
#[derive(Debug, Clone, Copy, PartialEq, Eq, Structural)]
pub enum ByteOrder {
    LittleEndian,
    BigEndian,
}

/// A member of a compound type.
#[derive(Debug, PartialEq)]
pub struct CompoundMember {
    /// Name of the member.
    pub name: String,
    /// Byte offset of the member within an element.
    pub offset: u32,
    /// Type of the member.
    pub datatype: DatatypeMessage,
}

/// The type of a dataset's elements.
#[derive(Debug, PartialEq)]
pub enum DatatypeMessage {
    /// An integer of `bit_precision` bits at `bit_offset` within `size` bytes.
    FixedPoint {
        size: u32,
        byte_order: ByteOrder,
        signed: bool,
        bit_offset: u16,
        bit_precision: u16,
    },
    /// A floating-point number.
    FloatingPoint {
        size: u32,
        byte_order: ByteOrder,
        sign_location: u8,
        bit_offset: u16,
        bit_precision: u16,
        exponent_location: u8,
        exponent_size: u8,
        mantissa_location: u8,
        mantissa_size: u8,
        exponent_bias: u32,
    },
    /// A string of a fixed number of bytes.
    FixedString { size: u32 },
    /// A string of any length, stored in a global heap. An element is the
    /// reference to it.
    VarLenString { size: u32 },
    /// A structure.
    Compound { size: u32, members: Vec<CompoundMember> },
}

/// What a compound member says.
#[verifier::ext_equal]
pub struct MemberView {
    pub name: Seq<char>,
    pub offset: u32,
    pub datatype: DatatypeView,
}

/// What a datatype message says.
#[verifier::ext_equal]
pub enum DatatypeView {
    /// A datatype without members.
    Simple(DatatypeMessage),
    /// A structure.
    Compound { size: u32, members: Seq<MemberView> },
}

/// What the first `n` members say.
pub open spec fn members_view(members: Seq<CompoundMember>, n: nat) -> Seq<MemberView>
    decreases members, n,
    when n <= members.len()
{
    if n == 0 {
        Seq::empty()
    } else {
        let m = members[n - 1];
        members_view(members, (n - 1) as nat).push(
            MemberView { name: m.name@, offset: m.offset, datatype: m.datatype.message_view() },
        )
    }
}

impl DatatypeMessage {
    /// What the message says.
    pub open spec fn message_view(self) -> DatatypeView
        decreases self,
    {
        match self {
            DatatypeMessage::Compound { size, members } => DatatypeView::Compound {
                size,
                members: members_view(members@, members@.len()),
            },
            _ => DatatypeView::Simple(self),
        }
    }

    /// A copy of the message.
    pub fn duplicate(&self) -> (r: Self)
        ensures
            r.message_view() == self.message_view(),
        decreases self,
    {
        match self {
            DatatypeMessage::FixedPoint { size, byte_order, signed, bit_offset, bit_precision } => {
                DatatypeMessage::FixedPoint {
                    size: *size,
                    byte_order: *byte_order,
                    signed: *signed,
                    bit_offset: *bit_offset,
                    bit_precision: *bit_precision,
                }
            },
            DatatypeMessage::FloatingPoint {
                size,
                byte_order,
                sign_location,
                bit_offset,
                bit_precision,
                exponent_location,
                exponent_size,
                mantissa_location,
                mantissa_size,
                exponent_bias,
            } => {
                DatatypeMessage::FloatingPoint {
                    size: *size,
                    byte_order: *byte_order,
                    sign_location: *sign_location,
                    bit_offset: *bit_offset,
                    bit_precision: *bit_precision,
                    exponent_location: *exponent_location,
                    exponent_size: *exponent_size,
                    mantissa_location: *mantissa_location,
                    mantissa_size: *mantissa_size,
                    exponent_bias: *exponent_bias,
                }
            },
            DatatypeMessage::FixedString { size } => DatatypeMessage::FixedString { size: *size },
            DatatypeMessage::VarLenString { size } => DatatypeMessage::VarLenString { size: *size },
            DatatypeMessage::Compound { size, members } => {
                let mut copies: Vec<CompoundMember> = Vec::new();
                let mut i: usize = 0;
                while i < members.len()
                    invariant
                        i <= members.len(),
                        copies@.len() == i,
                        self == (DatatypeMessage::Compound { size: *size, members: *members }),
                        members_view(copies@, i as nat) == members_view(members@, i as nat),
                    decreases members.len() - i,
                {
                    let m = &members[i];
                    let ghost before = copies@;
                    proof {
                        let inner = self->members;
                        assert(inner == *members);
                        assert(decreases_to!(*self => inner));
                        assert(decreases_to!(inner => inner@));
                        assert(decreases_to!(inner@ => inner@[i as int]));
                        assert(decreases_to!(inner@[i as int] => inner@[i as int].datatype));
                    }
                    copies.push(
                        CompoundMember {
                            name: m.name.clone(),
                            offset: m.offset,
                            datatype: m.datatype.duplicate(),
                        },
                    );
                    proof {
                        lemma_members_prefix(before, copies@, i as nat);
                    }
                    i = i + 1;
                }
                DatatypeMessage::Compound { size: *size, members: copies }
            },
        }
    }
}

/// The view of the first members does not depend on what follows them.
pub proof fn lemma_members_prefix(a: Seq<CompoundMember>, b: Seq<CompoundMember>, n: nat)
    requires
        n <= a.len() <= b.len(),
        forall|i: int| 0 <= i < n ==> a[i] == b[i],
    ensures
        members_view(a, n) == members_view(b, n),
    decreases n,
{
    if n > 0 {
        lemma_members_prefix(a, b, (n - 1) as nat);
    }
}

impl Clone for DatatypeMessage {
    fn clone(&self) -> (r: Self)
        ensures
            r.message_view() == self.message_view(),
    {
        self.duplicate()
    }
}

/// The datatype of an ordinary integer.
pub open spec fn plain_integer(size: u32, signed: bool) -> DatatypeMessage {
    DatatypeMessage::FixedPoint {
        size,
        byte_order: ByteOrder::LittleEndian,
        signed,
        bit_offset: 0,
        bit_precision: (8 * size) as u16,
    }
}

/// The IEEE-754 single precision datatype.
pub open spec fn ieee_single() -> DatatypeMessage {
    DatatypeMessage::FloatingPoint {
        size: 4,
        byte_order: ByteOrder::LittleEndian,
        sign_location: 31,
        bit_offset: 0,
        bit_precision: 32,
        exponent_location: 23,
        exponent_size: 8,
        mantissa_location: 0,
        mantissa_size: 23,
        exponent_bias: 127,
    }
}

/// The IEEE-754 double precision datatype.
pub open spec fn ieee_double() -> DatatypeMessage {
    DatatypeMessage::FloatingPoint {
        size: 8,
        byte_order: ByteOrder::LittleEndian,
        sign_location: 63,
        bit_offset: 0,
        bit_precision: 64,
        exponent_location: 52,
        exponent_size: 11,
        mantissa_location: 0,
        mantissa_size: 52,
        exponent_bias: 1023,
    }
}

impl DatatypeMessage {
    /// Bytes of one element.
    pub open spec fn spec_element_size(&self) -> u32 {
        match self {
            DatatypeMessage::FixedPoint { size, .. } => *size,
            DatatypeMessage::FloatingPoint { size, .. } => *size,
            DatatypeMessage::FixedString { size } => *size,
            DatatypeMessage::VarLenString { size } => *size,
            DatatypeMessage::Compound { size, .. } => *size,
        }
    }

    /// Bytes of one element.
    pub fn element_size(&self) -> (n: u32)
        ensures
            n == self.spec_element_size(),
    {
        match self {
            DatatypeMessage::FixedPoint { size, .. } => *size,
            DatatypeMessage::FloatingPoint { size, .. } => *size,
            DatatypeMessage::FixedString { size } => *size,
            DatatypeMessage::VarLenString { size } => *size,
            DatatypeMessage::Compound { size, .. } => *size,
        }
    }

    fn integer(size: u32, signed: bool) -> (dt: Self)
        requires
            size <= 8,
        ensures
            dt == plain_integer(size, signed),
    {
        DatatypeMessage::FixedPoint {
            size,
            byte_order: ByteOrder::LittleEndian,
            signed,
            bit_offset: 0,
            bit_precision: (8 * size) as u16,
        }
    }

    pub fn u8_type() -> (dt: Self)
        ensures
            dt == plain_integer(1, false),
    {
        Self::integer(1, false)
    }

    pub fn i8_type() -> (dt: Self)
        ensures
            dt == plain_integer(1, true),
    {
        Self::integer(1, true)
    }

    pub fn u16_type() -> (dt: Self)
        ensures
            dt == plain_integer(2, false),
    {
        Self::integer(2, false)
    }

    pub fn i16_type() -> (dt: Self)
        ensures
            dt == plain_integer(2, true),
    {
        Self::integer(2, true)
    }

    pub fn u32_type() -> (dt: Self)
        ensures
            dt == plain_integer(4, false),
    {
        Self::integer(4, false)
    }

    pub fn i32_type() -> (dt: Self)
        ensures
            dt == plain_integer(4, true),
    {
        Self::integer(4, true)
    }

    pub fn u64_type() -> (dt: Self)
        ensures
            dt == plain_integer(8, false),
    {
        Self::integer(8, false)
    }

    pub fn i64_type() -> (dt: Self)
        ensures
            dt == plain_integer(8, true),
    {
        Self::integer(8, true)
    }

    /// IEEE-754 single precision.
    pub fn f32_type() -> (dt: Self)
        ensures
            dt == ieee_single(),
    {
        DatatypeMessage::FloatingPoint {
            size: 4,
            byte_order: ByteOrder::LittleEndian,
            sign_location: 31,
            bit_offset: 0,
            bit_precision: 32,
            exponent_location: 23,
            exponent_size: 8,
            mantissa_location: 0,
            mantissa_size: 23,
            exponent_bias: 127,
        }
    }

    /// IEEE-754 double precision.
    pub fn f64_type() -> (dt: Self)
        ensures
            dt == ieee_double(),
    {
        DatatypeMessage::FloatingPoint {
            size: 8,
            byte_order: ByteOrder::LittleEndian,
            sign_location: 63,
            bit_offset: 0,
            bit_precision: 64,
            exponent_location: 52,
            exponent_size: 11,
            mantissa_location: 0,
            mantissa_size: 52,
            exponent_bias: 1023,
        }
    }

    /// A boolean: one unsigned byte.
    pub fn bool_type() -> (dt: Self)
        ensures
            dt == plain_integer(1, false),
    {
        Self::integer(1, false)
    }

    /// A string of any length. An element is a reference of sixteen bytes.
    pub fn vlen_string_utf8() -> (dt: Self)
        ensures
            dt == (DatatypeMessage::VarLenString { size: 16 }),
    {
        DatatypeMessage::VarLenString { size: 16 }
    }

    /// A string of `size` bytes.
    pub fn fixed_string(size: u32) -> (dt: Self)
        ensures
            dt == (DatatypeMessage::FixedString { size }),
    {
        DatatypeMessage::FixedString { size }
    }
}

} // verus!
