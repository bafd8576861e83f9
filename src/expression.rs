//! Relocation expressions: the recursive trees that patches carry.
use vstd::prelude::*;

use crate::codec::{
    holds_at, le16, le32, lemma_le16_injective, lemma_le32_injective, read_u16, read_u32, read_u8,
    write_u16, write_u32, write_u8, DecodeError,
};

verus! {

/// The deepest nesting of operators that the reader accepts.
pub const MAX_EXPRESSION_DEPTH: usize = 64;

/// An expression computing a relocated value.
///
/// Each variant is stored as a one-byte tag followed by its payload: a
/// little-endian `u32` for a constant, a little-endian `u16` index for the
/// other leaves, and two sub-expressions for an operator.
#[derive(Debug, PartialEq, Eq)]
pub enum Expression {
    /// A constant value (tag 0).
    Constant(u32),
    /// Index of a symbol's address. (tag 2)
    SymbolAddressIndex(u16),
    /// Base address of a section. (tag 4)
    SectionAddressIndex(u16),
    /// Bank of a section. (tag 6)
    Bank(u16),
    /// Section of a symbol. (tag 8)
    SectOf(u16),
    /// Offset of a symbol. (tag 10)
    Offset(u16),
    /// Start address of a section. (tag 12)
    SectionStart(u16),
    /// Start address of a group. (tag 14)
    GroupStart(u16),
    /// Group of a section. (tag 16)
    GroupOf(u16),
    /// Segment of a section. (tag 18)
    Segment(u16),
    /// Origin of a group. (tag 20)
    GroupOrg(u16),
    /// End address of a section. (tag 22)
    SectionEnd(u16),
    /// Equality comparison. (tag 32)
    Equals(Box<Expression>, Box<Expression>),
    /// Inequality comparison. (tag 34)
    NotEquals(Box<Expression>, Box<Expression>),
    /// Less than or equal. (tag 36)
    LTE(Box<Expression>, Box<Expression>),
    /// Less than. (tag 38)
    LessThan(Box<Expression>, Box<Expression>),
    /// Greater than or equal. (tag 40)
    GTE(Box<Expression>, Box<Expression>),
    /// Greater than. (tag 42)
    GreaterThan(Box<Expression>, Box<Expression>),
    /// Addition. (tag 44)
    Add(Box<Expression>, Box<Expression>),
    /// Subtraction. (tag 46)
    Subtract(Box<Expression>, Box<Expression>),
    /// Multiplication. (tag 48)
    Multiply(Box<Expression>, Box<Expression>),
    /// Division. (tag 50)
    Divide(Box<Expression>, Box<Expression>),
    /// Bitwise and. (tag 52)
    And(Box<Expression>, Box<Expression>),
    /// Bitwise or. (tag 54)
    Or(Box<Expression>, Box<Expression>),
    /// Bitwise exclusive or. (tag 56)
    XOR(Box<Expression>, Box<Expression>),
    /// Left shift. (tag 58)
    LeftShift(Box<Expression>, Box<Expression>),
    /// Right shift. (tag 60)
    RightShift(Box<Expression>, Box<Expression>),
    /// Remainder. (tag 62)
    Mod(Box<Expression>, Box<Expression>),
    /// The `---` operator. (tag 64)
    Dashes(Box<Expression>, Box<Expression>),
    /// Reverse word. (tag 66)
    Revword(Box<Expression>, Box<Expression>),
    /// Check0. (tag 68)
    Check0(Box<Expression>, Box<Expression>),
    /// Check1. (tag 70)
    Check1(Box<Expression>, Box<Expression>),
    /// Bit range extraction. (tag 72)
    BitRange(Box<Expression>, Box<Expression>),
    /// Arithmetic shift with check. (tag 74)
    ArshiftChk(Box<Expression>, Box<Expression>),
}

/// Tags of the leaves that carry a 16-bit index.
pub open spec fn is_index_tag(tag: u8) -> bool {
    2 <= tag <= 22 && tag % 2 == 0
}

/// Tags of the operators that carry two sub-expressions.
pub open spec fn is_operator_tag(tag: u8) -> bool {
    32 <= tag <= 74 && tag % 2 == 0
}

/// Tags that begin an expression.
pub open spec fn is_expression_tag(tag: u8) -> bool {
    tag == 0 || is_index_tag(tag) || is_operator_tag(tag)
}

impl Expression {
    /// The tag byte that begins this expression's encoding.
    pub open spec fn tag(self) -> u8 {
        match self {
            Expression::Constant(_) => 0,
            Expression::SymbolAddressIndex(_) => 2,
            Expression::SectionAddressIndex(_) => 4,
            Expression::Bank(_) => 6,
            Expression::SectOf(_) => 8,
            Expression::Offset(_) => 10,
            Expression::SectionStart(_) => 12,
            Expression::GroupStart(_) => 14,
            Expression::GroupOf(_) => 16,
            Expression::Segment(_) => 18,
            Expression::GroupOrg(_) => 20,
            Expression::SectionEnd(_) => 22,
            Expression::Equals(_, _) => 32,
            Expression::NotEquals(_, _) => 34,
            Expression::LTE(_, _) => 36,
            Expression::LessThan(_, _) => 38,
            Expression::GTE(_, _) => 40,
            Expression::GreaterThan(_, _) => 42,
            Expression::Add(_, _) => 44,
            Expression::Subtract(_, _) => 46,
            Expression::Multiply(_, _) => 48,
            Expression::Divide(_, _) => 50,
            Expression::And(_, _) => 52,
            Expression::Or(_, _) => 54,
            Expression::XOR(_, _) => 56,
            Expression::LeftShift(_, _) => 58,
            Expression::RightShift(_, _) => 60,
            Expression::Mod(_, _) => 62,
            Expression::Dashes(_, _) => 64,
            Expression::Revword(_, _) => 66,
            Expression::Check0(_, _) => 68,
            Expression::Check1(_, _) => 70,
            Expression::BitRange(_, _) => 72,
            Expression::ArshiftChk(_, _) => 74,
        }
    }

    /// The number of nested operators, a leaf counting none.
    pub open spec fn depth(self) -> nat
        decreases self,
    {
        match self {
            Expression::Equals(l, r) => 1 + vstd::math::max(l.depth() as int, r.depth() as int) as nat,
            Expression::NotEquals(l, r) => 1 + vstd::math::max(l.depth() as int, r.depth() as int) as nat,
            Expression::LTE(l, r) => 1 + vstd::math::max(l.depth() as int, r.depth() as int) as nat,
            Expression::LessThan(l, r) => 1 + vstd::math::max(l.depth() as int, r.depth() as int) as nat,
            Expression::GTE(l, r) => 1 + vstd::math::max(l.depth() as int, r.depth() as int) as nat,
            Expression::GreaterThan(l, r) => 1 + vstd::math::max(l.depth() as int, r.depth() as int) as nat,
            Expression::Add(l, r) => 1 + vstd::math::max(l.depth() as int, r.depth() as int) as nat,
            Expression::Subtract(l, r) => 1 + vstd::math::max(l.depth() as int, r.depth() as int) as nat,
            Expression::Multiply(l, r) => 1 + vstd::math::max(l.depth() as int, r.depth() as int) as nat,
            Expression::Divide(l, r) => 1 + vstd::math::max(l.depth() as int, r.depth() as int) as nat,
            Expression::And(l, r) => 1 + vstd::math::max(l.depth() as int, r.depth() as int) as nat,
            Expression::Or(l, r) => 1 + vstd::math::max(l.depth() as int, r.depth() as int) as nat,
            Expression::XOR(l, r) => 1 + vstd::math::max(l.depth() as int, r.depth() as int) as nat,
            Expression::LeftShift(l, r) => 1 + vstd::math::max(l.depth() as int, r.depth() as int) as nat,
            Expression::RightShift(l, r) => 1 + vstd::math::max(l.depth() as int, r.depth() as int) as nat,
            Expression::Mod(l, r) => 1 + vstd::math::max(l.depth() as int, r.depth() as int) as nat,
            Expression::Dashes(l, r) => 1 + vstd::math::max(l.depth() as int, r.depth() as int) as nat,
            Expression::Revword(l, r) => 1 + vstd::math::max(l.depth() as int, r.depth() as int) as nat,
            Expression::Check0(l, r) => 1 + vstd::math::max(l.depth() as int, r.depth() as int) as nat,
            Expression::Check1(l, r) => 1 + vstd::math::max(l.depth() as int, r.depth() as int) as nat,
            Expression::BitRange(l, r) => 1 + vstd::math::max(l.depth() as int, r.depth() as int) as nat,
            Expression::ArshiftChk(l, r) => 1 + vstd::math::max(l.depth() as int, r.depth() as int) as nat,
            _ => 0,
        }
    }

    /// The bytes that store this expression.
    pub open spec fn encoding(self) -> Seq<u8>
        decreases self,
    {
        match self {
            Expression::Constant(v) => seq![0u8] + le32(v),
            Expression::SymbolAddressIndex(i) => seq![2u8] + le16(i),
            Expression::SectionAddressIndex(i) => seq![4u8] + le16(i),
            Expression::Bank(i) => seq![6u8] + le16(i),
            Expression::SectOf(i) => seq![8u8] + le16(i),
            Expression::Offset(i) => seq![10u8] + le16(i),
            Expression::SectionStart(i) => seq![12u8] + le16(i),
            Expression::GroupStart(i) => seq![14u8] + le16(i),
            Expression::GroupOf(i) => seq![16u8] + le16(i),
            Expression::Segment(i) => seq![18u8] + le16(i),
            Expression::GroupOrg(i) => seq![20u8] + le16(i),
            Expression::SectionEnd(i) => seq![22u8] + le16(i),
            Expression::Equals(l, r) => seq![32u8] + l.encoding() + r.encoding(),
            Expression::NotEquals(l, r) => seq![34u8] + l.encoding() + r.encoding(),
            Expression::LTE(l, r) => seq![36u8] + l.encoding() + r.encoding(),
            Expression::LessThan(l, r) => seq![38u8] + l.encoding() + r.encoding(),
            Expression::GTE(l, r) => seq![40u8] + l.encoding() + r.encoding(),
            Expression::GreaterThan(l, r) => seq![42u8] + l.encoding() + r.encoding(),
            Expression::Add(l, r) => seq![44u8] + l.encoding() + r.encoding(),
            Expression::Subtract(l, r) => seq![46u8] + l.encoding() + r.encoding(),
            Expression::Multiply(l, r) => seq![48u8] + l.encoding() + r.encoding(),
            Expression::Divide(l, r) => seq![50u8] + l.encoding() + r.encoding(),
            Expression::And(l, r) => seq![52u8] + l.encoding() + r.encoding(),
            Expression::Or(l, r) => seq![54u8] + l.encoding() + r.encoding(),
            Expression::XOR(l, r) => seq![56u8] + l.encoding() + r.encoding(),
            Expression::LeftShift(l, r) => seq![58u8] + l.encoding() + r.encoding(),
            Expression::RightShift(l, r) => seq![60u8] + l.encoding() + r.encoding(),
            Expression::Mod(l, r) => seq![62u8] + l.encoding() + r.encoding(),
            Expression::Dashes(l, r) => seq![64u8] + l.encoding() + r.encoding(),
            Expression::Revword(l, r) => seq![66u8] + l.encoding() + r.encoding(),
            Expression::Check0(l, r) => seq![68u8] + l.encoding() + r.encoding(),
            Expression::Check1(l, r) => seq![70u8] + l.encoding() + r.encoding(),
            Expression::BitRange(l, r) => seq![72u8] + l.encoding() + r.encoding(),
            Expression::ArshiftChk(l, r) => seq![74u8] + l.encoding() + r.encoding(),
        }
    }
}

/// The operands of an operator expression.
pub open spec fn operands(e: Expression) -> (Expression, Expression) {
    match e {
        Expression::Equals(l, r) => (*l, *r),
        Expression::NotEquals(l, r) => (*l, *r),
        Expression::LTE(l, r) => (*l, *r),
        Expression::LessThan(l, r) => (*l, *r),
        Expression::GTE(l, r) => (*l, *r),
        Expression::GreaterThan(l, r) => (*l, *r),
        Expression::Add(l, r) => (*l, *r),
        Expression::Subtract(l, r) => (*l, *r),
        Expression::Multiply(l, r) => (*l, *r),
        Expression::Divide(l, r) => (*l, *r),
        Expression::And(l, r) => (*l, *r),
        Expression::Or(l, r) => (*l, *r),
        Expression::XOR(l, r) => (*l, *r),
        Expression::LeftShift(l, r) => (*l, *r),
        Expression::RightShift(l, r) => (*l, *r),
        Expression::Mod(l, r) => (*l, *r),
        Expression::Dashes(l, r) => (*l, *r),
        Expression::Revword(l, r) => (*l, *r),
        Expression::Check0(l, r) => (*l, *r),
        Expression::Check1(l, r) => (*l, *r),
        Expression::BitRange(l, r) => (*l, *r),
        Expression::ArshiftChk(l, r) => (*l, *r),
        _ => (e, e),
    }
}

/// The payload of a leaf: the constant, or the index widened to 32 bits.
pub open spec fn leaf_value(e: Expression) -> u32 {
    match e {
        Expression::Constant(v) => v,
        Expression::SymbolAddressIndex(i) => i as u32,
        Expression::SectionAddressIndex(i) => i as u32,
        Expression::Bank(i) => i as u32,
        Expression::SectOf(i) => i as u32,
        Expression::Offset(i) => i as u32,
        Expression::SectionStart(i) => i as u32,
        Expression::GroupStart(i) => i as u32,
        Expression::GroupOf(i) => i as u32,
        Expression::Segment(i) => i as u32,
        Expression::GroupOrg(i) => i as u32,
        Expression::SectionEnd(i) => i as u32,
        _ => 0,
    }
}

/// `data` holds the encoding of `e` from `pos` on.
pub open spec fn encodes_at(data: Seq<u8>, pos: int, e: Expression) -> bool {
    holds_at(data, pos, pos + e.encoding().len(), e.encoding())
}

/// The shape of an encoding: its tag, then the payload that the tag calls for.
pub proof fn lemma_expression_shape(e: Expression)
    ensures
        e.encoding().len() > 0,
        e.encoding()[0] == e.tag(),
        is_expression_tag(e.tag()),
        e.tag() == 0 ==> e.encoding() == seq![0u8] + le32(leaf_value(e)) && e.depth() == 0,
        is_index_tag(e.tag()) ==> e.encoding() == seq![e.tag()] + le16(leaf_value(e) as u16)
            && e.depth() == 0 && leaf_value(e) < 0x10000,
        is_operator_tag(e.tag()) ==> e.encoding() == seq![e.tag()] + operands(e).0.encoding()
            + operands(e).1.encoding() && e.depth() == 1 + vstd::math::max(
            operands(e).0.depth() as int,
            operands(e).1.depth() as int,
        ),
{
    match e {
        Expression::Constant(_) => {},
        Expression::SymbolAddressIndex(_) => {},
        Expression::SectionAddressIndex(_) => {},
        Expression::Bank(_) => {},
        Expression::SectOf(_) => {},
        Expression::Offset(_) => {},
        Expression::SectionStart(_) => {},
        Expression::GroupStart(_) => {},
        Expression::GroupOf(_) => {},
        Expression::Segment(_) => {},
        Expression::GroupOrg(_) => {},
        Expression::SectionEnd(_) => {},
        Expression::Equals(_, _) => {},
        Expression::NotEquals(_, _) => {},
        Expression::LTE(_, _) => {},
        Expression::LessThan(_, _) => {},
        Expression::GTE(_, _) => {},
        Expression::GreaterThan(_, _) => {},
        Expression::Add(_, _) => {},
        Expression::Subtract(_, _) => {},
        Expression::Multiply(_, _) => {},
        Expression::Divide(_, _) => {},
        Expression::And(_, _) => {},
        Expression::Or(_, _) => {},
        Expression::XOR(_, _) => {},
        Expression::LeftShift(_, _) => {},
        Expression::RightShift(_, _) => {},
        Expression::Mod(_, _) => {},
        Expression::Dashes(_, _) => {},
        Expression::Revword(_, _) => {},
        Expression::Check0(_, _) => {},
        Expression::Check1(_, _) => {},
        Expression::BitRange(_, _) => {},
        Expression::ArshiftChk(_, _) => {},
    }
}

proof fn lemma_rebuild(a: Expression, b: Expression)
    requires
        a.tag() == b.tag(),
        leaf_value(a) == leaf_value(b),
        is_operator_tag(a.tag()) ==> operands(a) == operands(b),
    ensures
        a == b,
{
    match a {
        Expression::Constant(_) => {},
        Expression::SymbolAddressIndex(_) => {},
        Expression::SectionAddressIndex(_) => {},
        Expression::Bank(_) => {},
        Expression::SectOf(_) => {},
        Expression::Offset(_) => {},
        Expression::SectionStart(_) => {},
        Expression::GroupStart(_) => {},
        Expression::GroupOf(_) => {},
        Expression::Segment(_) => {},
        Expression::GroupOrg(_) => {},
        Expression::SectionEnd(_) => {},
        Expression::Equals(_, _) => {},
        Expression::NotEquals(_, _) => {},
        Expression::LTE(_, _) => {},
        Expression::LessThan(_, _) => {},
        Expression::GTE(_, _) => {},
        Expression::GreaterThan(_, _) => {},
        Expression::Add(_, _) => {},
        Expression::Subtract(_, _) => {},
        Expression::Multiply(_, _) => {},
        Expression::Divide(_, _) => {},
        Expression::And(_, _) => {},
        Expression::Or(_, _) => {},
        Expression::XOR(_, _) => {},
        Expression::LeftShift(_, _) => {},
        Expression::RightShift(_, _) => {},
        Expression::Mod(_, _) => {},
        Expression::Dashes(_, _) => {},
        Expression::Revword(_, _) => {},
        Expression::Check0(_, _) => {},
        Expression::Check1(_, _) => {},
        Expression::BitRange(_, _) => {},
        Expression::ArshiftChk(_, _) => {},
    }
}

/// No encoding is a proper prefix of another: two expressions whose
/// encodings both begin `s` are equal.
pub proof fn lemma_encoding_unique(a: Expression, b: Expression, s: Seq<u8>)
    requires
        a.encoding().len() <= s.len(),
        b.encoding().len() <= s.len(),
        s.subrange(0, a.encoding().len() as int) == a.encoding(),
        s.subrange(0, b.encoding().len() as int) == b.encoding(),
    ensures
        a == b,
    decreases a.encoding().len(),
{
    lemma_expression_shape(a);
    lemma_expression_shape(b);
    assert(a.tag() == s[0]) by {
        assert(s.subrange(0, a.encoding().len() as int)[0] == s[0]);
    }
    assert(b.tag() == s[0]) by {
        assert(s.subrange(0, b.encoding().len() as int)[0] == s[0]);
    }
    let t = a.tag();
    if t == 0 {
        assert(a.encoding() =~= b.encoding());
        assert(le32(leaf_value(a)) =~= a.encoding().subrange(1, 5));
        assert(le32(leaf_value(b)) =~= b.encoding().subrange(1, 5));
        lemma_le32_injective(leaf_value(a), leaf_value(b));
        lemma_rebuild(a, b);
    } else if is_index_tag(t) {
        assert(a.encoding() =~= b.encoding());
        assert(le16(leaf_value(a) as u16) =~= a.encoding().subrange(1, 3));
        assert(le16(leaf_value(b) as u16) =~= b.encoding().subrange(1, 3));
        lemma_le16_injective(leaf_value(a) as u16, leaf_value(b) as u16);
        lemma_rebuild(a, b);
    } else {
        let (al, ar) = operands(a);
        let (bl, br) = operands(b);
        let s1 = s.subrange(1, s.len() as int);
        assert(s1.subrange(0, al.encoding().len() as int) =~= al.encoding()) by {
            assert(s1.subrange(0, al.encoding().len() as int) =~= a.encoding().subrange(
                1,
                1 + al.encoding().len() as int,
            ));
        }
        assert(s1.subrange(0, bl.encoding().len() as int) =~= bl.encoding()) by {
            assert(s1.subrange(0, bl.encoding().len() as int) =~= b.encoding().subrange(
                1,
                1 + bl.encoding().len() as int,
            ));
        }
        lemma_encoding_unique(al, bl, s1);
        let k = 1 + al.encoding().len() as int;
        let s2 = s.subrange(k, s.len() as int);
        assert(s2.subrange(0, ar.encoding().len() as int) =~= ar.encoding()) by {
            assert(s2.subrange(0, ar.encoding().len() as int) =~= a.encoding().subrange(
                k,
                a.encoding().len() as int,
            ));
        }
        assert(s2.subrange(0, br.encoding().len() as int) =~= br.encoding()) by {
            assert(s2.subrange(0, br.encoding().len() as int) =~= b.encoding().subrange(
                k,
                b.encoding().len() as int,
            ));
        }
        lemma_encoding_unique(ar, br, s2);
        lemma_rebuild(a, b);
    }
}

impl Clone for Expression {
    fn clone(&self) -> (c: Self)
        ensures
            c == *self,
        decreases self,
    {
        match self {
            Expression::Constant(v) => Expression::Constant(*v),
            Expression::SymbolAddressIndex(i) => Expression::SymbolAddressIndex(*i),
            Expression::SectionAddressIndex(i) => Expression::SectionAddressIndex(*i),
            Expression::Bank(i) => Expression::Bank(*i),
            Expression::SectOf(i) => Expression::SectOf(*i),
            Expression::Offset(i) => Expression::Offset(*i),
            Expression::SectionStart(i) => Expression::SectionStart(*i),
            Expression::GroupStart(i) => Expression::GroupStart(*i),
            Expression::GroupOf(i) => Expression::GroupOf(*i),
            Expression::Segment(i) => Expression::Segment(*i),
            Expression::GroupOrg(i) => Expression::GroupOrg(*i),
            Expression::SectionEnd(i) => Expression::SectionEnd(*i),
            Expression::Equals(l, r) => Expression::Equals(Box::new((**l).clone()), Box::new((**r).clone())),
            Expression::NotEquals(l, r) => Expression::NotEquals(Box::new((**l).clone()), Box::new((**r).clone())),
            Expression::LTE(l, r) => Expression::LTE(Box::new((**l).clone()), Box::new((**r).clone())),
            Expression::LessThan(l, r) => Expression::LessThan(Box::new((**l).clone()), Box::new((**r).clone())),
            Expression::GTE(l, r) => Expression::GTE(Box::new((**l).clone()), Box::new((**r).clone())),
            Expression::GreaterThan(l, r) => Expression::GreaterThan(Box::new((**l).clone()), Box::new((**r).clone())),
            Expression::Add(l, r) => Expression::Add(Box::new((**l).clone()), Box::new((**r).clone())),
            Expression::Subtract(l, r) => Expression::Subtract(Box::new((**l).clone()), Box::new((**r).clone())),
            Expression::Multiply(l, r) => Expression::Multiply(Box::new((**l).clone()), Box::new((**r).clone())),
            Expression::Divide(l, r) => Expression::Divide(Box::new((**l).clone()), Box::new((**r).clone())),
            Expression::And(l, r) => Expression::And(Box::new((**l).clone()), Box::new((**r).clone())),
            Expression::Or(l, r) => Expression::Or(Box::new((**l).clone()), Box::new((**r).clone())),
            Expression::XOR(l, r) => Expression::XOR(Box::new((**l).clone()), Box::new((**r).clone())),
            Expression::LeftShift(l, r) => Expression::LeftShift(Box::new((**l).clone()), Box::new((**r).clone())),
            Expression::RightShift(l, r) => Expression::RightShift(Box::new((**l).clone()), Box::new((**r).clone())),
            Expression::Mod(l, r) => Expression::Mod(Box::new((**l).clone()), Box::new((**r).clone())),
            Expression::Dashes(l, r) => Expression::Dashes(Box::new((**l).clone()), Box::new((**r).clone())),
            Expression::Revword(l, r) => Expression::Revword(Box::new((**l).clone()), Box::new((**r).clone())),
            Expression::Check0(l, r) => Expression::Check0(Box::new((**l).clone()), Box::new((**r).clone())),
            Expression::Check1(l, r) => Expression::Check1(Box::new((**l).clone()), Box::new((**r).clone())),
            Expression::BitRange(l, r) => Expression::BitRange(Box::new((**l).clone()), Box::new((**r).clone())),
            Expression::ArshiftChk(l, r) => Expression::ArshiftChk(Box::new((**l).clone()), Box::new((**r).clone())),
        }
    }
}

fn make_index(tag: u8, index: u16) -> (e: Expression)
    requires
        is_index_tag(tag),
    ensures
        e.encoding() == seq![tag] + le16(index),
        e.depth() == 0,
        e.tag() == tag,
        leaf_value(e) == index as u32,
{
    match tag {
        2 => Expression::SymbolAddressIndex(index),
        4 => Expression::SectionAddressIndex(index),
        6 => Expression::Bank(index),
        8 => Expression::SectOf(index),
        10 => Expression::Offset(index),
        12 => Expression::SectionStart(index),
        14 => Expression::GroupStart(index),
        16 => Expression::GroupOf(index),
        18 => Expression::Segment(index),
        20 => Expression::GroupOrg(index),
        _ => Expression::SectionEnd(index),
    }
}

fn make_operator(tag: u8, l: Expression, r: Expression) -> (e: Expression)
    requires
        is_operator_tag(tag),
    ensures
        e.encoding() == seq![tag] + l.encoding() + r.encoding(),
        e.depth() == 1 + vstd::math::max(l.depth() as int, r.depth() as int),
        e.tag() == tag,
        operands(e) == (l, r),
        leaf_value(e) == 0,
{
    let (l, r) = (Box::new(l), Box::new(r));
    match tag {
        32 => Expression::Equals(l, r),
        34 => Expression::NotEquals(l, r),
        36 => Expression::LTE(l, r),
        38 => Expression::LessThan(l, r),
        40 => Expression::GTE(l, r),
        42 => Expression::GreaterThan(l, r),
        44 => Expression::Add(l, r),
        46 => Expression::Subtract(l, r),
        48 => Expression::Multiply(l, r),
        50 => Expression::Divide(l, r),
        52 => Expression::And(l, r),
        54 => Expression::Or(l, r),
        56 => Expression::XOR(l, r),
        58 => Expression::LeftShift(l, r),
        60 => Expression::RightShift(l, r),
        62 => Expression::Mod(l, r),
        64 => Expression::Dashes(l, r),
        66 => Expression::Revword(l, r),
        68 => Expression::Check0(l, r),
        70 => Expression::Check1(l, r),
        72 => Expression::BitRange(l, r),
        _ => Expression::ArshiftChk(l, r),
    }
}

/// Reads the expression that begins at `pos`, accepting at most `depth`
/// nested operators. It succeeds exactly when an expression of at most that
/// depth is encoded there, and then returns it.
pub fn read_expression(data: &[u8], pos: usize, depth: usize) -> (r: Result<
    (Expression, usize),
    DecodeError,
>)
    ensures
        r matches Ok((e, end)) ==> holds_at(data@, pos as int, end as int, e.encoding())
            && e.depth() <= depth,
        forall|e: Expression|
            #[trigger] encodes_at(data@, pos as int, e) && e.depth() <= depth ==> r == Ok::<
                (Expression, usize),
                DecodeError,
            >((e, (pos + e.encoding().len()) as usize)),
        r matches Err(DecodeError::UnknownExpressionTag(t)) ==> !is_expression_tag(t),
        r matches Err(e) ==> e is Truncated || e is UnknownExpressionTag || e is NestingTooDeep,
    decreases depth,
{
    let ghost d = data@;
    if pos >= data.len() {
        assert forall|e: Expression| #[trigger] encodes_at(d, pos as int, e) && e.depth() <= depth implies false by {
            lemma_expression_shape(e);
        }
        return Err(DecodeError::Truncated);
    }
    let tag = data[pos];
    let p = pos + 1;
    proof {
        assert forall|e: Expression| #[trigger] encodes_at(d, pos as int, e) implies e.tag() == tag by {
            lemma_expression_shape(e);
            assert(d.subrange(pos as int, pos + e.encoding().len())[0] == d[pos as int]);
        }
    }
    let r = if tag == 0 {
        match read_u32(data, p) {
            Ok((v, end)) => {
                assert(d.subrange(pos as int, end as int) =~= seq![tag] + le32(v));
                Ok((Expression::Constant(v), end))
            },
            Err(err) => {
                assert forall|e: Expression| #[trigger] encodes_at(d, pos as int, e) implies false by {
                    lemma_expression_shape(e);
                }
                Err(err)
            },
        }
    } else if tag <= 22 && tag % 2 == 0 {
        match read_u16(data, p) {
            Ok((v, end)) => {
                assert(d.subrange(pos as int, end as int) =~= seq![tag] + le16(v));
                Ok((make_index(tag, v), end))
            },
            Err(err) => {
                assert forall|e: Expression| #[trigger] encodes_at(d, pos as int, e) implies false by {
                    lemma_expression_shape(e);
                }
                Err(err)
            },
        }
    } else if 32 <= tag && tag <= 74 && tag % 2 == 0 {
        if depth == 0 {
            assert forall|e: Expression| #[trigger] encodes_at(d, pos as int, e) && e.depth() <= depth implies false by {
                lemma_expression_shape(e);
            }
            return Err(DecodeError::NestingTooDeep);
        }
        proof {
            assert forall|e: Expression| #[trigger] encodes_at(d, pos as int, e) implies encodes_at(
                d,
                p as int,
                operands(e).0,
            ) && encodes_at(d, p + operands(e).0.encoding().len(), operands(e).1) by {
                lemma_expression_shape(e);
                let n0 = operands(e).0.encoding().len() as int;
                let n1 = operands(e).1.encoding().len() as int;
                assert(e.tag() == tag);
                assert(is_operator_tag(tag));
                assert(e.encoding().subrange(1, 1 + n0) =~= operands(e).0.encoding());
                assert(e.encoding().subrange(1 + n0, 1 + n0 + n1) =~= operands(e).1.encoding());
                assert(d.subrange(p as int, p + n0) =~= d.subrange(
                    pos as int,
                    pos + e.encoding().len(),
                ).subrange(1, 1 + n0));
                assert(d.subrange(p + n0, p + n0 + n1) =~= d.subrange(
                    pos as int,
                    pos + e.encoding().len(),
                ).subrange(1 + n0, 1 + n0 + n1));
            }
        }
        match read_expression(data, p, depth - 1) {
            Ok((l, p1)) => {
                match read_expression(data, p1, depth - 1) {
                    Ok((rr, end)) => {
                        assert(d.subrange(pos as int, end as int) =~= seq![tag] + l.encoding()
                            + rr.encoding()) by {
                            assert(d.subrange(pos as int, end as int) =~= d.subrange(
                                pos as int,
                                p as int,
                            ) + d.subrange(p as int, p1 as int) + d.subrange(
                                p1 as int,
                                end as int,
                            ));
                        }
                        Ok((make_operator(tag, l, rr), end))
                    },
                    Err(err) => Err(err),
                }
            },
            Err(err) => Err(err),
        }
    } else {
        proof {
            assert forall|e: Expression| #[trigger] encodes_at(d, pos as int, e) implies false by {
                lemma_expression_shape(e);
            }
        }
        Err(DecodeError::UnknownExpressionTag(tag))
    };
    proof {
        assert forall|e: Expression| #[trigger] encodes_at(d, pos as int, e) && e.depth() <= depth implies r
            == Ok::<(Expression, usize), DecodeError>(
            (e, (pos + e.encoding().len()) as usize),
        ) by {
            lemma_expression_shape(e);
            if let Ok((x, end)) = r {
                let s = d.subrange(pos as int, d.len() as int);
                assert(s.subrange(0, x.encoding().len() as int) =~= x.encoding()) by {
                    assert(s.subrange(0, x.encoding().len() as int) =~= d.subrange(
                        pos as int,
                        end as int,
                    ));
                }
                assert(s.subrange(0, e.encoding().len() as int) =~= e.encoding()) by {
                    assert(s.subrange(0, e.encoding().len() as int) =~= d.subrange(
                        pos as int,
                        pos + e.encoding().len(),
                    ));
                }
                lemma_encoding_unique(x, e, s);
            }
        }
    }
    r
}

/// Appends the encoding of `e`.
pub fn write_expression(out: &mut Vec<u8>, e: &Expression)
    ensures
        final(out)@ == old(out)@ + e.encoding(),
    decreases e,
{
    match e {
        Expression::Constant(v) => {
            write_u8(out, 0);
            write_u32(out, *v);
        },
        Expression::SymbolAddressIndex(i) => {
            write_u8(out, 2);
            write_u16(out, *i);
        },
        Expression::SectionAddressIndex(i) => {
            write_u8(out, 4);
            write_u16(out, *i);
        },
        Expression::Bank(i) => {
            write_u8(out, 6);
            write_u16(out, *i);
        },
        Expression::SectOf(i) => {
            write_u8(out, 8);
            write_u16(out, *i);
        },
        Expression::Offset(i) => {
            write_u8(out, 10);
            write_u16(out, *i);
        },
        Expression::SectionStart(i) => {
            write_u8(out, 12);
            write_u16(out, *i);
        },
        Expression::GroupStart(i) => {
            write_u8(out, 14);
            write_u16(out, *i);
        },
        Expression::GroupOf(i) => {
            write_u8(out, 16);
            write_u16(out, *i);
        },
        Expression::Segment(i) => {
            write_u8(out, 18);
            write_u16(out, *i);
        },
        Expression::GroupOrg(i) => {
            write_u8(out, 20);
            write_u16(out, *i);
        },
        Expression::SectionEnd(i) => {
            write_u8(out, 22);
            write_u16(out, *i);
        },
        Expression::Equals(l, r) => {
            write_u8(out, 32);
            write_expression(out, l);
            write_expression(out, r);
        },
        Expression::NotEquals(l, r) => {
            write_u8(out, 34);
            write_expression(out, l);
            write_expression(out, r);
        },
        Expression::LTE(l, r) => {
            write_u8(out, 36);
            write_expression(out, l);
            write_expression(out, r);
        },
        Expression::LessThan(l, r) => {
            write_u8(out, 38);
            write_expression(out, l);
            write_expression(out, r);
        },
        Expression::GTE(l, r) => {
            write_u8(out, 40);
            write_expression(out, l);
            write_expression(out, r);
        },
        Expression::GreaterThan(l, r) => {
            write_u8(out, 42);
            write_expression(out, l);
            write_expression(out, r);
        },
        Expression::Add(l, r) => {
            write_u8(out, 44);
            write_expression(out, l);
            write_expression(out, r);
        },
        Expression::Subtract(l, r) => {
            write_u8(out, 46);
            write_expression(out, l);
            write_expression(out, r);
        },
        Expression::Multiply(l, r) => {
            write_u8(out, 48);
            write_expression(out, l);
            write_expression(out, r);
        },
        Expression::Divide(l, r) => {
            write_u8(out, 50);
            write_expression(out, l);
            write_expression(out, r);
        },
        Expression::And(l, r) => {
            write_u8(out, 52);
            write_expression(out, l);
            write_expression(out, r);
        },
        Expression::Or(l, r) => {
            write_u8(out, 54);
            write_expression(out, l);
            write_expression(out, r);
        },
        Expression::XOR(l, r) => {
            write_u8(out, 56);
            write_expression(out, l);
            write_expression(out, r);
        },
        Expression::LeftShift(l, r) => {
            write_u8(out, 58);
            write_expression(out, l);
            write_expression(out, r);
        },
        Expression::RightShift(l, r) => {
            write_u8(out, 60);
            write_expression(out, l);
            write_expression(out, r);
        },
        Expression::Mod(l, r) => {
            write_u8(out, 62);
            write_expression(out, l);
            write_expression(out, r);
        },
        Expression::Dashes(l, r) => {
            write_u8(out, 64);
            write_expression(out, l);
            write_expression(out, r);
        },
        Expression::Revword(l, r) => {
            write_u8(out, 66);
            write_expression(out, l);
            write_expression(out, r);
        },
        Expression::Check0(l, r) => {
            write_u8(out, 68);
            write_expression(out, l);
            write_expression(out, r);
        },
        Expression::Check1(l, r) => {
            write_u8(out, 70);
            write_expression(out, l);
            write_expression(out, r);
        },
        Expression::BitRange(l, r) => {
            write_u8(out, 72);
            write_expression(out, l);
            write_expression(out, r);
        },
        Expression::ArshiftChk(l, r) => {
            write_u8(out, 74);
            write_expression(out, l);
            write_expression(out, r);
        },
    }
    assert(out@ =~= old(out)@ + e.encoding());
}

} // verus!
