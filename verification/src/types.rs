//! Mapping from Rust types to HDF5 datatype messages.

pub mod values;

use crate::format::bytes::{
    le_bytes, le_value, lemma_le_bytes_len, lemma_le_bytes_of_value, lemma_le_roundtrip_exact,
    lemma_le_value_bound, lemma_pow256_values, pow256, push_le, push_slice, read_le_uint,
};
use crate::format::messages::datatype::{
    ieee_double, ieee_single, lemma_members_prefix, members_view, plain_integer, CompoundMember,
    DatatypeMessage, DatatypeView, MemberView,
};
use vstd::prelude::*;
use vstd::slice::slice_subrange;

verus! {

/// A type whose values can be elements of a dataset.
pub trait H5Type: Sized + Copy {
    /// What the datatype says.
    spec fn type_view() -> DatatypeView;

    /// Bytes of one element.
    spec fn size() -> nat;

    /// The element that stands for a value.
    spec fn bytes(self) -> Seq<u8>;

    /// The HDF5 datatype message describing this type.
    fn hdf5_type() -> (dt: DatatypeMessage)
        ensures
            dt.message_view() == Self::type_view(),
            dt.spec_element_size() == Self::size(),
    ;

    /// The size of a single element in bytes.
    fn element_size() -> (n: usize)
        ensures
            n == Self::size(),
    ;

    /// The element that stands for the value.
    fn to_bytes(&self) -> (b: Vec<u8>)
        ensures
            b@ == self.bytes(),
            b@.len() == Self::size(),
    ;

    /// The value that an element stands for.
    fn from_bytes(b: &[u8]) -> (v: Self)
        requires
            b@.len() == Self::size(),
        ensures
            v.bytes() == b@,
    ;

    /// Different values have different elements.
    proof fn lemma_bytes(a: Self, b: Self)
        ensures
            a.bytes().len() == Self::size(),
            a.bytes() == b.bytes() ==> a == b,
    ;
}

/// The number that bytes stand for, least significant first.
fn number_of(b: &[u8]) -> (v: u64)
    requires
        b@.len() <= 8,
    ensures
        v == le_value(b@),
        le_bytes(v as nat, b@.len()) == b@,
        v < pow256(b@.len()),
{
    let v: u64 = read_le_uint(b, b.len());
    proof {
        assert(b@.take(b@.len() as int) =~= b@);
        lemma_le_bytes_of_value(b@);
        lemma_le_value_bound(b@);
        lemma_pow256_values();
    }
    v
}

/// Numbers with the same bytes are the same.
proof fn lemma_same_number(a: nat, b: nat, n: nat)
    requires
        a < pow256(n),
        b < pow256(n),
    ensures
        le_bytes(a, n).len() == n,
        le_bytes(a, n) == le_bytes(b, n) ==> a == b,
{
    lemma_le_bytes_len(a, n);
    lemma_le_roundtrip_exact(a, n);
    lemma_le_roundtrip_exact(b, n);
}

/// The least significant `n` bytes of a number.
fn bytes_of(v: u64, n: usize) -> (b: Vec<u8>)
    requires
        n <= 8,
    ensures
        b@ == le_bytes(v as nat, n as nat),
        b@.len() == n,
{
    let mut b: Vec<u8> = Vec::new();
    push_le(&mut b, v, n);
    proof {
        assert(b@ =~= le_bytes(v as nat, n as nat));
        lemma_le_bytes_len(v as nat, n as nat);
    }
    b
}

impl H5Type for u8 {
    open spec fn type_view() -> DatatypeView {
        DatatypeView::Simple(plain_integer(1, false))
    }

    open spec fn size() -> nat {
        1
    }

    open spec fn bytes(self) -> Seq<u8> {
        le_bytes(self as nat, 1)
    }

    fn hdf5_type() -> (dt: DatatypeMessage) {
        DatatypeMessage::u8_type()
    }

    fn element_size() -> (n: usize) {
        1
    }

    fn to_bytes(&self) -> (b: Vec<u8>) {
        bytes_of(*self as u64, 1)
    }

    fn from_bytes(b: &[u8]) -> (v: Self) {
        proof {
            lemma_pow256_values();
        }
        number_of(b) as u8
    }

    proof fn lemma_bytes(a: Self, b: Self) {
        lemma_pow256_values();
        lemma_same_number(a as nat, b as nat, 1);
    }
}

impl H5Type for i8 {
    open spec fn type_view() -> DatatypeView {
        DatatypeView::Simple(plain_integer(1, true))
    }

    open spec fn size() -> nat {
        1
    }

    open spec fn bytes(self) -> Seq<u8> {
        le_bytes((self as u8) as nat, 1)
    }

    fn hdf5_type() -> (dt: DatatypeMessage) {
        DatatypeMessage::i8_type()
    }

    fn element_size() -> (n: usize) {
        1
    }

    fn to_bytes(&self) -> (b: Vec<u8>) {
        bytes_of((*self as u8) as u64, 1)
    }

    fn from_bytes(b: &[u8]) -> (v: Self) {
        proof {
            lemma_pow256_values();
        }
        let v: u8 = number_of(b) as u8;
        let r: i8 = v as i8;
        assert((v as i8) as u8 == v) by (bit_vector);
        r
    }

    proof fn lemma_bytes(a: Self, b: Self) {
        lemma_pow256_values();
        lemma_same_number((a as u8) as nat, (b as u8) as nat, 1);
        assert(a as u8 == b as u8 ==> a == b) by (bit_vector);
    }
}

impl H5Type for u16 {
    open spec fn type_view() -> DatatypeView {
        DatatypeView::Simple(plain_integer(2, false))
    }

    open spec fn size() -> nat {
        2
    }

    open spec fn bytes(self) -> Seq<u8> {
        le_bytes(self as nat, 2)
    }

    fn hdf5_type() -> (dt: DatatypeMessage) {
        DatatypeMessage::u16_type()
    }

    fn element_size() -> (n: usize) {
        2
    }

    fn to_bytes(&self) -> (b: Vec<u8>) {
        bytes_of(*self as u64, 2)
    }

    fn from_bytes(b: &[u8]) -> (v: Self) {
        proof {
            lemma_pow256_values();
        }
        number_of(b) as u16
    }

    proof fn lemma_bytes(a: Self, b: Self) {
        lemma_pow256_values();
        lemma_same_number(a as nat, b as nat, 2);
    }
}

impl H5Type for i16 {
    open spec fn type_view() -> DatatypeView {
        DatatypeView::Simple(plain_integer(2, true))
    }

    open spec fn size() -> nat {
        2
    }

    open spec fn bytes(self) -> Seq<u8> {
        le_bytes((self as u16) as nat, 2)
    }

    fn hdf5_type() -> (dt: DatatypeMessage) {
        DatatypeMessage::i16_type()
    }

    fn element_size() -> (n: usize) {
        2
    }

    fn to_bytes(&self) -> (b: Vec<u8>) {
        bytes_of((*self as u16) as u64, 2)
    }

    fn from_bytes(b: &[u8]) -> (v: Self) {
        proof {
            lemma_pow256_values();
        }
        let v: u16 = number_of(b) as u16;
        let r: i16 = v as i16;
        assert((v as i16) as u16 == v) by (bit_vector);
        r
    }

    proof fn lemma_bytes(a: Self, b: Self) {
        lemma_pow256_values();
        lemma_same_number((a as u16) as nat, (b as u16) as nat, 2);
        assert(a as u16 == b as u16 ==> a == b) by (bit_vector);
    }
}

impl H5Type for u32 {
    open spec fn type_view() -> DatatypeView {
        DatatypeView::Simple(plain_integer(4, false))
    }

    open spec fn size() -> nat {
        4
    }

    open spec fn bytes(self) -> Seq<u8> {
        le_bytes(self as nat, 4)
    }

    fn hdf5_type() -> (dt: DatatypeMessage) {
        DatatypeMessage::u32_type()
    }

    fn element_size() -> (n: usize) {
        4
    }

    fn to_bytes(&self) -> (b: Vec<u8>) {
        bytes_of(*self as u64, 4)
    }

    fn from_bytes(b: &[u8]) -> (v: Self) {
        proof {
            lemma_pow256_values();
        }
        number_of(b) as u32
    }

    proof fn lemma_bytes(a: Self, b: Self) {
        lemma_pow256_values();
        lemma_same_number(a as nat, b as nat, 4);
    }
}

impl H5Type for i32 {
    open spec fn type_view() -> DatatypeView {
        DatatypeView::Simple(plain_integer(4, true))
    }

    open spec fn size() -> nat {
        4
    }

    open spec fn bytes(self) -> Seq<u8> {
        le_bytes((self as u32) as nat, 4)
    }

    fn hdf5_type() -> (dt: DatatypeMessage) {
        DatatypeMessage::i32_type()
    }

    fn element_size() -> (n: usize) {
        4
    }

    fn to_bytes(&self) -> (b: Vec<u8>) {
        bytes_of((*self as u32) as u64, 4)
    }

    fn from_bytes(b: &[u8]) -> (v: Self) {
        proof {
            lemma_pow256_values();
        }
        let v: u32 = number_of(b) as u32;
        let r: i32 = v as i32;
        assert((v as i32) as u32 == v) by (bit_vector);
        r
    }

    proof fn lemma_bytes(a: Self, b: Self) {
        lemma_pow256_values();
        lemma_same_number((a as u32) as nat, (b as u32) as nat, 4);
        assert(a as u32 == b as u32 ==> a == b) by (bit_vector);
    }
}

impl H5Type for u64 {
    open spec fn type_view() -> DatatypeView {
        DatatypeView::Simple(plain_integer(8, false))
    }

    open spec fn size() -> nat {
        8
    }

    open spec fn bytes(self) -> Seq<u8> {
        le_bytes(self as nat, 8)
    }

    fn hdf5_type() -> (dt: DatatypeMessage) {
        DatatypeMessage::u64_type()
    }

    fn element_size() -> (n: usize) {
        8
    }

    fn to_bytes(&self) -> (b: Vec<u8>) {
        bytes_of(*self as u64, 8)
    }

    fn from_bytes(b: &[u8]) -> (v: Self) {
        proof {
            lemma_pow256_values();
        }
        number_of(b)
    }

    proof fn lemma_bytes(a: Self, b: Self) {
        lemma_pow256_values();
        lemma_same_number(a as nat, b as nat, 8);
    }
}

impl H5Type for i64 {
    open spec fn type_view() -> DatatypeView {
        DatatypeView::Simple(plain_integer(8, true))
    }

    open spec fn size() -> nat {
        8
    }

    open spec fn bytes(self) -> Seq<u8> {
        le_bytes((self as u64) as nat, 8)
    }

    fn hdf5_type() -> (dt: DatatypeMessage) {
        DatatypeMessage::i64_type()
    }

    fn element_size() -> (n: usize) {
        8
    }

    fn to_bytes(&self) -> (b: Vec<u8>) {
        bytes_of(*self as u64, 8)
    }

    fn from_bytes(b: &[u8]) -> (v: Self) {
        proof {
            lemma_pow256_values();
        }
        let v: u64 = number_of(b) as u64;
        let r: i64 = v as i64;
        assert((v as i64) as u64 == v) by (bit_vector);
        r
    }

    proof fn lemma_bytes(a: Self, b: Self) {
        lemma_pow256_values();
        lemma_same_number((a as u64) as nat, (b as u64) as nat, 8);
        assert(a as u64 == b as u64 ==> a == b) by (bit_vector);
    }
}

/// A floating-point number of single precision, by its bits.
#[derive(Debug, Clone, Copy, PartialEq, Eq, Default, Structural)]
pub struct Single {
    /// The bits of the number.
    pub bits: u32,
}

impl H5Type for Single {
    open spec fn type_view() -> DatatypeView {
        DatatypeView::Simple(ieee_single())
    }

    open spec fn size() -> nat {
        4
    }

    open spec fn bytes(self) -> Seq<u8> {
        le_bytes(self.bits as nat, 4)
    }

    fn hdf5_type() -> (dt: DatatypeMessage) {
        DatatypeMessage::f32_type()
    }

    fn element_size() -> (n: usize) {
        4
    }

    fn to_bytes(&self) -> (b: Vec<u8>) {
        bytes_of(self.bits as u64, 4)
    }

    fn from_bytes(b: &[u8]) -> (v: Self) {
        proof {
            lemma_pow256_values();
        }
        Single { bits: number_of(b) as u32 }
    }

    proof fn lemma_bytes(a: Self, b: Self) {
        lemma_pow256_values();
        lemma_same_number(a.bits as nat, b.bits as nat, 4);
    }
}

/// A floating-point number of double precision, by its bits.
#[derive(Debug, Clone, Copy, PartialEq, Eq, Default, Structural)]
pub struct Double {
    /// The bits of the number.
    pub bits: u64,
}

impl H5Type for Double {
    open spec fn type_view() -> DatatypeView {
        DatatypeView::Simple(ieee_double())
    }

    open spec fn size() -> nat {
        8
    }

    open spec fn bytes(self) -> Seq<u8> {
        le_bytes(self.bits as nat, 8)
    }

    fn hdf5_type() -> (dt: DatatypeMessage) {
        DatatypeMessage::f64_type()
    }

    fn element_size() -> (n: usize) {
        8
    }

    fn to_bytes(&self) -> (b: Vec<u8>) {
        bytes_of(self.bits as u64, 8)
    }

    fn from_bytes(b: &[u8]) -> (v: Self) {
        proof {
            lemma_pow256_values();
        }
        Double { bits: number_of(b) }
    }

    proof fn lemma_bytes(a: Self, b: Self) {
        lemma_pow256_values();
        lemma_same_number(a.bits as nat, b.bits as nat, 8);
    }
}

/// HDF5 boolean type, stored as a byte (0 = false, 1 = true).
#[derive(Debug, Clone, Copy, PartialEq, Eq, Default, Structural)]
pub struct HBool(pub u8);

impl vstd::std_specs::convert::FromSpecImpl<bool> for HBool {
    open spec fn obeys_from_spec() -> bool {
        true
    }

    open spec fn from_spec(b: bool) -> Self {
        if b {
            HBool(1)
        } else {
            HBool(0)
        }
    }
}

impl From<bool> for HBool {
    fn from(b: bool) -> (h: Self) {
        if b {
            HBool(1)
        } else {
            HBool(0)
        }
    }
}

impl vstd::std_specs::convert::FromSpecImpl<HBool> for bool {
    open spec fn obeys_from_spec() -> bool {
        true
    }

    open spec fn from_spec(h: HBool) -> Self {
        h.0 != 0
    }
}

impl From<HBool> for bool {
    fn from(h: HBool) -> (b: Self) {
        h.0 != 0
    }
}

impl H5Type for HBool {
    open spec fn type_view() -> DatatypeView {
        DatatypeView::Simple(plain_integer(1, false))
    }

    open spec fn size() -> nat {
        1
    }

    open spec fn bytes(self) -> Seq<u8> {
        le_bytes(self.0 as nat, 1)
    }

    fn hdf5_type() -> (dt: DatatypeMessage) {
        DatatypeMessage::bool_type()
    }

    fn element_size() -> (n: usize) {
        1
    }

    fn to_bytes(&self) -> (b: Vec<u8>) {
        bytes_of(self.0 as u64, 1)
    }

    fn from_bytes(b: &[u8]) -> (v: Self) {
        proof {
            lemma_pow256_values();
        }
        HBool(number_of(b) as u8)
    }

    proof fn lemma_bytes(a: Self, b: Self) {
        lemma_pow256_values();
        lemma_same_number(a.0 as nat, b.0 as nat, 1);
    }
}

/// A boolean survives its stored form.
pub proof fn lemma_bool_roundtrip(b: bool)
    ensures
        <bool as vstd::std_specs::convert::FromSpec<HBool>>::from_spec(
            <HBool as vstd::std_specs::convert::FromSpec<bool>>::from_spec(b),
        ) == b,
{
}

/// The datatype of a complex number: real part, then imaginary part.
pub open spec fn complex_view(part: DatatypeMessage, size: u32) -> DatatypeView {
    DatatypeView::Compound {
        size: (2 * size) as u32,
        members: seq![
            MemberView { name: "r"@, offset: 0, datatype: part.message_view() },
            MemberView { name: "i"@, offset: size, datatype: part.message_view() },
        ],
    }
}

/// The datatype of a complex number.
fn complex_type(re: DatatypeMessage, im: DatatypeMessage, size: u32) -> (dt: DatatypeMessage)
    requires
        re.message_view() == im.message_view(),
        size <= 8,
    ensures
        dt.message_view() == complex_view(re, size),
        dt.spec_element_size() == 2 * size,
{
    let mut members: Vec<CompoundMember> = Vec::new();
    members.push(CompoundMember { name: "r".to_owned(), offset: 0, datatype: re });
    members.push(CompoundMember { name: "i".to_owned(), offset: size, datatype: im });
    proof {
        reveal_with_fuel(members_view, 3);
        assert(members_view(members@, 2) =~= complex_view(re, size)->members);
    }
    DatatypeMessage::Compound { size: 2 * size, members }
}

/// Complex number whose parts have single precision (8 bytes total).
#[derive(Debug, Clone, Copy, PartialEq, Eq, Default, Structural)]
pub struct Complex32 {
    /// Real part.
    pub re: Single,
    /// Imaginary part.
    pub im: Single,
}

impl H5Type for Complex32 {
    open spec fn type_view() -> DatatypeView {
        complex_view(ieee_single(), 4)
    }

    open spec fn size() -> nat {
        8
    }

    open spec fn bytes(self) -> Seq<u8> {
        self.re.bytes() + self.im.bytes()
    }

    fn hdf5_type() -> (dt: DatatypeMessage) {
        complex_type(DatatypeMessage::f32_type(), DatatypeMessage::f32_type(), 4)
    }

    fn element_size() -> (n: usize) {
        8
    }

    fn to_bytes(&self) -> (b: Vec<u8>) {
        let mut b = self.re.to_bytes();
        let im = self.im.to_bytes();
        push_slice(&mut b, im.as_slice());
        b
    }

    fn from_bytes(b: &[u8]) -> (v: Self) {
        let v = Complex32 {
            re: Single::from_bytes(slice_subrange(b, 0, 4)),
            im: Single::from_bytes(slice_subrange(b, 4, 8)),
        };
        assert(v.bytes() =~= b@);
        v
    }

    proof fn lemma_bytes(a: Self, b: Self) {
        Single::lemma_bytes(a.re, b.re);
        Single::lemma_bytes(a.im, b.im);
        Single::lemma_bytes(b.re, a.re);
        if a.bytes() == b.bytes() {
            assert(a.bytes().take(4) =~= a.re.bytes());
            assert(b.bytes().take(4) =~= b.re.bytes());
            assert(a.bytes().skip(4) =~= a.im.bytes());
            assert(b.bytes().skip(4) =~= b.im.bytes());
        }
    }
}

/// Complex number whose parts have double precision (16 bytes total).
#[derive(Debug, Clone, Copy, PartialEq, Eq, Default, Structural)]
pub struct Complex64 {
    /// Real part.
    pub re: Double,
    /// Imaginary part.
    pub im: Double,
}

impl H5Type for Complex64 {
    open spec fn type_view() -> DatatypeView {
        complex_view(ieee_double(), 8)
    }

    open spec fn size() -> nat {
        16
    }

    open spec fn bytes(self) -> Seq<u8> {
        self.re.bytes() + self.im.bytes()
    }

    fn hdf5_type() -> (dt: DatatypeMessage) {
        complex_type(DatatypeMessage::f64_type(), DatatypeMessage::f64_type(), 8)
    }

    fn element_size() -> (n: usize) {
        16
    }

    fn to_bytes(&self) -> (b: Vec<u8>) {
        let mut b = self.re.to_bytes();
        let im = self.im.to_bytes();
        push_slice(&mut b, im.as_slice());
        b
    }

    fn from_bytes(b: &[u8]) -> (v: Self) {
        let v = Complex64 {
            re: Double::from_bytes(slice_subrange(b, 0, 8)),
            im: Double::from_bytes(slice_subrange(b, 8, 16)),
        };
        assert(v.bytes() =~= b@);
        v
    }

    proof fn lemma_bytes(a: Self, b: Self) {
        Double::lemma_bytes(a.re, b.re);
        Double::lemma_bytes(a.im, b.im);
        Double::lemma_bytes(b.re, a.re);
        if a.bytes() == b.bytes() {
            assert(a.bytes().take(8) =~= a.re.bytes());
            assert(b.bytes().take(8) =~= b.re.bytes());
            assert(a.bytes().skip(8) =~= a.im.bytes());
            assert(b.bytes().skip(8) =~= b.im.bytes());
        }
    }
}

/// A description of a compound (struct) type.
#[derive(Debug)]
pub struct CompoundType {
    /// Members: (name, datatype, byte offset).
    pub members: Vec<(String, DatatypeMessage, u32)>,
    /// Total size of the compound element in bytes.
    pub total_size: u32,
}

impl CompoundType {
    /// What the members say.
    pub open spec fn views(self) -> Seq<MemberView> {
        Seq::new(
            self.members@.len(),
            |i: int|
                MemberView {
                    name: self.members@[i].0@,
                    offset: self.members@[i].2,
                    datatype: self.members@[i].1.message_view(),
                },
        )
    }

    /// The datatype message for the type.
    pub fn to_datatype(&self) -> (dt: DatatypeMessage)
        ensures
            dt.message_view() == (DatatypeView::Compound {
                size: self.total_size,
                members: self.views(),
            }),
    {
        let mut members: Vec<CompoundMember> = Vec::new();
        let mut i: usize = 0;
        assert(members_view(members@, 0) =~= self.views().take(0));
        while i < self.members.len()
            invariant
                i <= self.members.len(),
                members@.len() == i,
                members_view(members@, i as nat) == self.views().take(i as int),
            decreases self.members.len() - i,
        {
            let ghost before = members@;
            members.push(
                CompoundMember {
                    name: self.members[i].0.clone(),
                    offset: self.members[i].2,
                    datatype: self.members[i].1.clone(),
                },
            );
            proof {
                lemma_members_prefix(before, members@, i as nat);
            }
            i = i + 1;
            assert(members_view(members@, i as nat) =~= self.views().take(i as int));
        }
        assert(self.views().take(i as int) =~= self.views());
        DatatypeMessage::Compound { size: self.total_size, members }
    }
}

/// A string of any length. As an attribute it is stored with the length of its
/// value.
#[derive(Debug, Clone, PartialEq, Eq, Default)]
pub struct VarLenUnicode(pub String);

impl std::str::FromStr for VarLenUnicode {
    type Err = std::convert::Infallible;

    fn from_str(s: &str) -> (r: Result<Self, Self::Err>)
        ensures
            r matches Ok(v) && v.0@ == s@,
    {
        Ok(VarLenUnicode(s.to_owned()))
    }
}

impl vstd::std_specs::convert::FromSpecImpl<String> for VarLenUnicode {
    open spec fn obeys_from_spec() -> bool {
        true
    }

    open spec fn from_spec(s: String) -> Self {
        VarLenUnicode(s)
    }
}

impl From<String> for VarLenUnicode {
    fn from(s: String) -> (v: Self) {
        VarLenUnicode(s)
    }
}

impl vstd::std_specs::convert::FromSpecImpl<&str> for VarLenUnicode {
    open spec fn obeys_from_spec() -> bool {
        false
    }

    open spec fn from_spec(s: &str) -> Self {
        arbitrary()
    }
}

impl From<&str> for VarLenUnicode {
    fn from(s: &str) -> (v: Self)
        ensures
            v.0@ == s@,
    {
        VarLenUnicode(s.to_owned())
    }
}

impl vstd::std_specs::convert::FromSpecImpl<VarLenUnicode> for String {
    open spec fn obeys_from_spec() -> bool {
        true
    }

    open spec fn from_spec(v: VarLenUnicode) -> Self {
        v.0
    }
}

impl From<VarLenUnicode> for String {
    fn from(v: VarLenUnicode) -> (s: Self) {
        v.0
    }
}

impl VarLenUnicode {
    /// The text.
    pub fn to_text(&self) -> (s: String)
        ensures
            s@ == self.0@,
    {
        self.0.clone()
    }
}

} // verus!
