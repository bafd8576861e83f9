//! The human-readable listing of sections and relocation expressions, in the
//! layout of the PSY-Q `DUMPOBJ` tool.
use vstd::prelude::*;
use vstd::string::StringSliceAdditionalSpecFns;

use crate::expression::{is_operator_tag, lemma_expression_shape, operands, Expression};
use crate::section::{Dim, Section};
use crate::text::{lossy_text, text_of};

verus! {

/// Appends the bytes of `s`.
pub fn push_str(out: &mut Vec<u8>, s: &str)
    ensures
        final(out)@ == old(out)@ + s.spec_bytes(),
{
    let b = s.as_bytes();
    let mut i: usize = 0;
    while i < b.len()
        invariant
            i <= b@.len(),
            b@ == s.spec_bytes(),
            out@ =~= old(out)@ + b@.subrange(0, i as int),
        decreases b.len() - i,
    {
        out.push(b[i]);
        i = i + 1;
        assert(out@ =~= old(out)@ + b@.subrange(0, i as int));
    }
    assert(b@.subrange(0, i as int) =~= b@);
}

/// Appends raw bytes.
pub fn push_bytes(out: &mut Vec<u8>, b: &Vec<u8>)
    ensures
        final(out)@ == old(out)@ + b@,
{
    crate::codec::write_raw(out, b);
}

/// The lower-case hexadecimal digit for `d`, below 16.
pub open spec fn hex_digit(d: u64) -> u8 {
    if d < 10 {
        (0x30 + d) as u8
    } else {
        (0x61 + d - 10) as u8
    }
}

/// `v` in lower-case hexadecimal, at least `width` digits, zeros in front.
pub open spec fn hex_text(v: u64, width: nat) -> Seq<u8>
    decreases width, v,
{
    if v < 16 && width <= 1 {
        seq![hex_digit(v)]
    } else {
        hex_text(v / 16, if width > 0 {
            (width - 1) as nat
        } else {
            0
        }) + seq![hex_digit(v % 16)]
    }
}

/// `v` in decimal.
pub open spec fn dec_text(v: u64) -> Seq<u8>
    decreases v,
{
    if v < 10 {
        seq![(0x30 + v) as u8]
    } else {
        dec_text(v / 10) + seq![(0x30 + v % 10) as u8]
    }
}

/// Appends `v` in lower-case hexadecimal with at least `width` digits.
pub fn push_hex(out: &mut Vec<u8>, v: u64, width: usize)
    ensures
        final(out)@ == old(out)@ + hex_text(v, width as nat),
    decreases width, v,
{
    if v < 16 && width <= 1 {
        let d: u8 = if v < 10 {
            (0x30 + v) as u8
        } else {
            (0x61 + v - 10) as u8
        };
        out.push(d);
        assert(out@ =~= old(out)@ + hex_text(v, width as nat));
    } else {
        let w: usize = if width > 0 {
            width - 1
        } else {
            0
        };
        push_hex(out, v / 16, w);
        let m = v % 16;
        let d: u8 = if m < 10 {
            (0x30 + m) as u8
        } else {
            (0x61 + m - 10) as u8
        };
        out.push(d);
        assert(out@ =~= old(out)@ + hex_text(v, width as nat));
    }
}

/// Appends `v` in decimal.
pub fn push_dec(out: &mut Vec<u8>, v: u64)
    ensures
        final(out)@ == old(out)@ + dec_text(v),
    decreases v,
{
    if v < 10 {
        out.push((0x30 + v) as u8);
        assert(out@ =~= old(out)@ + dec_text(v));
    } else {
        push_dec(out, v / 10);
        out.push((0x30 + v % 10) as u8);
        assert(out@ =~= old(out)@ + dec_text(v));
    }
}

/// Appends `v` in decimal, with a `-` when it is negative.
pub fn push_signed(out: &mut Vec<u8>, v: i64)
    ensures
        final(out)@ == old(out)@ + signed_text(v),
{
    if v < 0 {
        out.push(0x2D);
        let m: u64 = if v == i64::MIN {
            0x8000_0000_0000_0000
        } else {
            (-v) as u64
        };
        push_dec(out, m);
        assert(out@ =~= old(out)@ + signed_text(v));
    } else {
        push_dec(out, v as u64);
    }
}

/// The listing of a relocation expression.
pub open spec fn expression_listing(e: Expression) -> Seq<u8>
    decreases e,
{
    match e {
        Expression::Constant(v) => "$".spec_bytes() + hex_text(v as u64, 0),
        Expression::SymbolAddressIndex(i) => "[".spec_bytes() + hex_text(i as u64, 0) + "]".spec_bytes(),
        Expression::SectionAddressIndex(i) => "sectbase(".spec_bytes() + hex_text(i as u64, 0) + ")".spec_bytes(),
        Expression::Bank(i) => "bank(".spec_bytes() + hex_text(i as u64, 0) + ")".spec_bytes(),
        Expression::SectOf(i) => "sectof(".spec_bytes() + hex_text(i as u64, 0) + ")".spec_bytes(),
        Expression::Offset(i) => "offs(".spec_bytes() + hex_text(i as u64, 0) + ")".spec_bytes(),
        Expression::SectionStart(i) => "sectstart(".spec_bytes() + hex_text(i as u64, 0) + ")".spec_bytes(),
        Expression::GroupStart(i) => "groupstart(".spec_bytes() + hex_text(i as u64, 0) + ")".spec_bytes(),
        Expression::GroupOf(i) => "groupstart(".spec_bytes() + hex_text(i as u64, 0) + ")".spec_bytes(),
        Expression::Segment(i) => "seg(".spec_bytes() + hex_text(i as u64, 0) + ")".spec_bytes(),
        Expression::GroupOrg(i) => "grouporg(".spec_bytes() + hex_text(i as u64, 0) + ")".spec_bytes(),
        Expression::SectionEnd(i) => "sectend(".spec_bytes() + hex_text(i as u64, 0) + ")".spec_bytes(),
        Expression::Equals(l, r) => "(".spec_bytes() + expression_listing(*l) + "=".spec_bytes() + expression_listing(*r) + ")".spec_bytes(),
        Expression::NotEquals(l, r) => "(".spec_bytes() + expression_listing(*l) + "<>".spec_bytes() + expression_listing(*r) + ")".spec_bytes(),
        Expression::LTE(l, r) => "(".spec_bytes() + expression_listing(*l) + "<=".spec_bytes() + expression_listing(*r) + ")".spec_bytes(),
        Expression::LessThan(l, r) => "(".spec_bytes() + expression_listing(*l) + "<".spec_bytes() + expression_listing(*r) + ")".spec_bytes(),
        Expression::GTE(l, r) => "(".spec_bytes() + expression_listing(*l) + ">=".spec_bytes() + expression_listing(*r) + ")".spec_bytes(),
        Expression::GreaterThan(l, r) => "(".spec_bytes() + expression_listing(*l) + ">".spec_bytes() + expression_listing(*r) + ")".spec_bytes(),
        Expression::Add(l, r) => "(".spec_bytes() + expression_listing(*l) + "+".spec_bytes() + expression_listing(*r) + ")".spec_bytes(),
        Expression::Subtract(l, r) => "(".spec_bytes() + expression_listing(*l) + "-".spec_bytes() + expression_listing(*r) + ")".spec_bytes(),
        Expression::Multiply(l, r) => "(".spec_bytes() + expression_listing(*l) + "*".spec_bytes() + expression_listing(*r) + ")".spec_bytes(),
        Expression::Divide(l, r) => "(".spec_bytes() + expression_listing(*l) + "/".spec_bytes() + expression_listing(*r) + ")".spec_bytes(),
        Expression::And(l, r) => "(".spec_bytes() + expression_listing(*l) + "&".spec_bytes() + expression_listing(*r) + ")".spec_bytes(),
        Expression::Or(l, r) => "(".spec_bytes() + expression_listing(*l) + "!".spec_bytes() + expression_listing(*r) + ")".spec_bytes(),
        Expression::XOR(l, r) => "(".spec_bytes() + expression_listing(*l) + "^".spec_bytes() + expression_listing(*r) + ")".spec_bytes(),
        Expression::LeftShift(l, r) => "(".spec_bytes() + expression_listing(*l) + "<<".spec_bytes() + expression_listing(*r) + ")".spec_bytes(),
        Expression::RightShift(l, r) => "(".spec_bytes() + expression_listing(*l) + ">>".spec_bytes() + expression_listing(*r) + ")".spec_bytes(),
        Expression::Mod(l, r) => "(".spec_bytes() + expression_listing(*l) + "%%".spec_bytes() + expression_listing(*r) + ")".spec_bytes(),
        Expression::Dashes(l, r) => "(".spec_bytes() + expression_listing(*l) + "---".spec_bytes() + expression_listing(*r) + ")".spec_bytes(),
        Expression::Revword(l, r) => "(".spec_bytes() + expression_listing(*l) + "-revword-".spec_bytes() + expression_listing(*r) + ")".spec_bytes(),
        Expression::Check0(l, r) => "(".spec_bytes() + expression_listing(*l) + "-check0-".spec_bytes() + expression_listing(*r) + ")".spec_bytes(),
        Expression::Check1(l, r) => "(".spec_bytes() + expression_listing(*l) + "-check1-".spec_bytes() + expression_listing(*r) + ")".spec_bytes(),
        Expression::BitRange(l, r) => "(".spec_bytes() + expression_listing(*l) + "-bitrange-".spec_bytes() + expression_listing(*r) + ")".spec_bytes(),
        Expression::ArshiftChk(l, r) => "(".spec_bytes() + expression_listing(*l) + "-arshift_chk-".spec_bytes() + expression_listing(*r) + ")".spec_bytes(),
    }
}

/// The text between the operands of an operator expression.
pub open spec fn operator_text(e: Expression) -> &'static str {
    match e {
        Expression::Equals(_, _) => "=",
        Expression::NotEquals(_, _) => "<>",
        Expression::LTE(_, _) => "<=",
        Expression::LessThan(_, _) => "<",
        Expression::GTE(_, _) => ">=",
        Expression::GreaterThan(_, _) => ">",
        Expression::Add(_, _) => "+",
        Expression::Subtract(_, _) => "-",
        Expression::Multiply(_, _) => "*",
        Expression::Divide(_, _) => "/",
        Expression::And(_, _) => "&",
        Expression::Or(_, _) => "!",
        Expression::XOR(_, _) => "^",
        Expression::LeftShift(_, _) => "<<",
        Expression::RightShift(_, _) => ">>",
        Expression::Mod(_, _) => "%%",
        Expression::Dashes(_, _) => "---",
        Expression::Revword(_, _) => "-revword-",
        Expression::Check0(_, _) => "-check0-",
        Expression::Check1(_, _) => "-check1-",
        Expression::BitRange(_, _) => "-bitrange-",
        Expression::ArshiftChk(_, _) => "-arshift_chk-",
        _ => "",
    }
}

proof fn lemma_operator_listing(e: Expression)
    requires
        is_operator_tag(e.tag()),
    ensures
        expression_listing(e) == "(".spec_bytes() + expression_listing(operands(e).0)
            + operator_text(e).spec_bytes() + expression_listing(operands(e).1) + ")".spec_bytes(),
{
    match e {
        Expression::Constant(_) => {},
        Expression::SectionAddressIndex(_) => {},
        Expression::Bank(_) => {},
        Expression::SectOf(_) => {},
        Expression::Offset(_) => {},
        Expression::SectionStart(_) => {},
        Expression::GroupStart(_) => {},
        Expression::GroupOf(_) => {},
        Expression::Segment(_) => {},
        Expression::GroupOrg(_) => {},
        Expression::SectionEnd(_) => {},
        Expression::SymbolAddressIndex(_) => {},
        Expression::Equals(_, _) => {},
        Expression::NotEquals(_, _) => {},
        Expression::LTE(_, _) => {},
        Expression::LessThan(_, _) => {},
        Expression::GTE(_, _) => {},
        Expression::GreaterThan(_, _) => {},
        Expression::Add(_, _) => {},
        Expression::Subtract(_, _) => {},
        Expression::Multiply(_, _) => {},
        Expression::Divide(_, _) => {},
        Expression::And(_, _) => {},
        Expression::Or(_, _) => {},
        Expression::XOR(_, _) => {},
        Expression::LeftShift(_, _) => {},
        Expression::RightShift(_, _) => {},
        Expression::Mod(_, _) => {},
        Expression::Dashes(_, _) => {},
        Expression::Revword(_, _) => {},
        Expression::Check0(_, _) => {},
        Expression::Check1(_, _) => {},
        Expression::BitRange(_, _) => {},
        Expression::ArshiftChk(_, _) => {},
    }
}

fn operator_parts(e: &Expression) -> (r: Option<(&Expression, &'static str, &Expression)>)
    ensures
        r matches Some((l, t, rr)) ==> is_operator_tag(e.tag()) && *l == operands(*e).0 && *rr
            == operands(*e).1 && t == operator_text(*e),
        r is None ==> !is_operator_tag(e.tag()),
{
    match e {
        Expression::Equals(l, r) => Some((&**l, "=", &**r)),
        Expression::NotEquals(l, r) => Some((&**l, "<>", &**r)),
        Expression::LTE(l, r) => Some((&**l, "<=", &**r)),
        Expression::LessThan(l, r) => Some((&**l, "<", &**r)),
        Expression::GTE(l, r) => Some((&**l, ">=", &**r)),
        Expression::GreaterThan(l, r) => Some((&**l, ">", &**r)),
        Expression::Add(l, r) => Some((&**l, "+", &**r)),
        Expression::Subtract(l, r) => Some((&**l, "-", &**r)),
        Expression::Multiply(l, r) => Some((&**l, "*", &**r)),
        Expression::Divide(l, r) => Some((&**l, "/", &**r)),
        Expression::And(l, r) => Some((&**l, "&", &**r)),
        Expression::Or(l, r) => Some((&**l, "!", &**r)),
        Expression::XOR(l, r) => Some((&**l, "^", &**r)),
        Expression::LeftShift(l, r) => Some((&**l, "<<", &**r)),
        Expression::RightShift(l, r) => Some((&**l, ">>", &**r)),
        Expression::Mod(l, r) => Some((&**l, "%%", &**r)),
        Expression::Dashes(l, r) => Some((&**l, "---", &**r)),
        Expression::Revword(l, r) => Some((&**l, "-revword-", &**r)),
        Expression::Check0(l, r) => Some((&**l, "-check0-", &**r)),
        Expression::Check1(l, r) => Some((&**l, "-check1-", &**r)),
        Expression::BitRange(l, r) => Some((&**l, "-bitrange-", &**r)),
        Expression::ArshiftChk(l, r) => Some((&**l, "-arshift_chk-", &**r)),
        _ => None,
    }
}

fn push_leaf(out: &mut Vec<u8>, e: &Expression)
    requires
        !is_operator_tag(e.tag()),
    ensures
        final(out)@ == old(out)@ + expression_listing(*e),
{
    let ghost start = out@;
    match e {
        Expression::Constant(v) => {
            push_str(out, "$");
            push_hex(out, *v as u64, 0);
        },
        Expression::SymbolAddressIndex(i) => {
            push_str(out, "[");
            push_hex(out, *i as u64, 0);
            push_str(out, "]");
        },
        Expression::SectionAddressIndex(i) => push_call(out, "sectbase(", *i),
        Expression::Bank(i) => push_call(out, "bank(", *i),
        Expression::SectOf(i) => push_call(out, "sectof(", *i),
        Expression::Offset(i) => push_call(out, "offs(", *i),
        Expression::SectionStart(i) => push_call(out, "sectstart(", *i),
        Expression::GroupStart(i) => push_call(out, "groupstart(", *i),
        Expression::GroupOf(i) => push_call(out, "groupstart(", *i),
        Expression::Segment(i) => push_call(out, "seg(", *i),
        Expression::GroupOrg(i) => push_call(out, "grouporg(", *i),
        Expression::SectionEnd(i) => push_call(out, "sectend(", *i),
        _ => {},
    }
    assert(out@ =~= start + expression_listing(*e));
}

/// Appends the listing of a relocation expression: `$` and hexadecimal for
/// a constant, `[n]` for a symbol, a function form for the other leaves, and
/// `(lhs op rhs)` for an operator.
pub fn push_expression(out: &mut Vec<u8>, e: &Expression)
    ensures
        final(out)@ == old(out)@ + expression_listing(*e),
    decreases e.encoding().len(),
{
    let ghost start = out@;
    match operator_parts(e) {
        Some((l, op, r)) => {
            proof {
                lemma_expression_shape(*e);
                lemma_operator_listing(*e);
            }
            push_str(out, "(");
            push_expression(out, l);
            push_str(out, op);
            push_expression(out, r);
            push_str(out, ")");
            assert(out@ =~= start + expression_listing(*e));
        },
        None => push_leaf(out, e),
    }
}

fn push_call(out: &mut Vec<u8>, name: &str, i: u16)
    ensures
        final(out)@ == old(out)@ + name.spec_bytes() + hex_text(i as u64, 0) + ")".spec_bytes(),
{
    push_str(out, name);
    push_hex(out, i as u64, 0);
    push_str(out, ")");
    assert(out@ =~= old(out)@ + name.spec_bytes() + hex_text(i as u64, 0) + ")".spec_bytes());
}

impl Expression {
    /// The listing of this expression.
    pub fn to_listing(&self) -> (r: String)
        ensures
            r@ == lossy_text(expression_listing(*self)),
    {
        let mut out: Vec<u8> = Vec::new();
        push_expression(&mut out, self);
        assert(out@ =~= expression_listing(*self));
        text_of(&out)
    }
}

/// The text of a decimal number with its sign.
pub open spec fn signed_text(v: i64) -> Seq<u8> {
    if v < 0 {
        seq![0x2Du8] + dec_text(if v == i64::MIN { 0x8000_0000_0000_0000u64 } else { (-v) as u64 })
    } else {
        dec_text(v as u64)
    }
}

/// The text of a dimension record in a listing.
pub open spec fn dims_text(d: Dim) -> Seq<u8> {
    match d {
        Dim::Scalar => "0".spec_bytes(),
        Dim::Value(v) => "1 ".spec_bytes() + dec_text(v as u64),
    }
}

/// The listing of a section; `british` selects the spelling
/// "Uninitialised".
pub open spec fn section_listing(s: Section, british: bool) -> Seq<u8> {
    match s {
        Section::NOP => "0 : End of file".spec_bytes(),
        Section::Code(c) => "2 : Code ".spec_bytes() + dec_text(c.code@.len() as u64) + " bytes".spec_bytes(),
        Section::RunAtOffset(a, b) => "RunAtOffset(".spec_bytes() + dec_text(a as u64) + ", ".spec_bytes() + dec_text(b as u64) + ")".spec_bytes(),
        Section::SectionSwitch(s) => "6 : Switch to section ".spec_bytes() + hex_text(s.id as u64, 0),
        Section::BSS(size) => (if british { "8 : Uninitialised data, ".spec_bytes() } else { "8 : Uninitialized data, ".spec_bytes() }) + dec_text(size as u64) + " bytes".spec_bytes(),
        Section::Patch(p) => "10 : Patch type ".spec_bytes() + dec_text(p.tag as u64) + " at offset ".spec_bytes() + hex_text(p.offset as u64, 0) + " with ".spec_bytes() + expression_listing(p.expression),
        Section::XDEF(x) => "12 : XDEF symbol number ".spec_bytes() + hex_text(x.number as u64, 0) + " '".spec_bytes() + x.symbol_name@ + "' at offset ".spec_bytes() + hex_text(x.offset as u64, 0) + " in section ".spec_bytes() + hex_text(x.section as u64, 0),
        Section::XREF(x) => "14 : XREF symbol number ".spec_bytes() + hex_text(x.number as u64, 0) + " '".spec_bytes() + x.symbol_name@ + "'".spec_bytes(),
        Section::LNKHeader(h) => "16 : Section symbol number ".spec_bytes() + hex_text(h.section as u64, 0) + " '".spec_bytes() + h.section_type@ + "' in group ".spec_bytes() + dec_text(h.group as u64) + " alignment ".spec_bytes() + dec_text(h.align as u64),
        Section::LocalSymbol(s) => "18 : Local symbol '".spec_bytes() + s.name@ + "' at offset ".spec_bytes() + hex_text(s.offset as u64, 0) + " in section ".spec_bytes() + hex_text(s.section as u64, 0),
        Section::GroupSymbol(s) => "20 : Group symbol number ".spec_bytes() + hex_text(s.number as u64, 0) + " `".spec_bytes() + s.name@ + "` type ".spec_bytes() + dec_text(s.sym_type as u64),
        Section::Filename(f) => "28 : Define file number ".spec_bytes() + hex_text(f.number as u64, 0) + " as \"".spec_bytes() + f.name@ + "\"".spec_bytes(),
        Section::SetMXInfo(m) => "44 : Set MX info at offset ".spec_bytes() + hex_text(m.offset as u64, 0) + " to ".spec_bytes() + hex_text(m.value as u64, 0),
        Section::CPU(c) => "46 : Processor type ".spec_bytes() + dec_text(c as u64),
        Section::XBSS(x) => "48 : XBSS symbol number ".spec_bytes() + hex_text(x.number as u64, 0) + " '".spec_bytes() + x.name@ + "' size ".spec_bytes() + hex_text(x.size as u64, 0) + " in section ".spec_bytes() + hex_text(x.section as u64, 0),
        Section::IncSLDLineNum(offset) => "50 : Inc SLD linenum at offset ".spec_bytes() + hex_text(offset as u64, 0),
        Section::IncSLDLineNumByte(offset, byte) => "52 : Inc SLD linenum by byte ".spec_bytes() + dec_text(byte as u64) + " at offset ".spec_bytes() + hex_text(offset as u64, 0),
        Section::SetSLDLineNum(l) => "56 : Set SLD linenum to ".spec_bytes() + dec_text(l.linenum as u64) + " at offset ".spec_bytes() + hex_text(l.offset as u64, 0),
        Section::SetSLDLineNumFile(l) => "58 : Set SLD linenum to ".spec_bytes() + dec_text(l.linenum as u64) + " at offset ".spec_bytes() + hex_text(l.offset as u64, 0) + " in file ".spec_bytes() + hex_text(l.file as u64, 0),
        Section::EndSLDInfo(offset) => "60 : End SLD info at offset ".spec_bytes() + hex_text(offset as u64, 0),
        Section::FunctionStart(f) => "74 : Function start :\n  section ".spec_bytes() + hex_text(f.section as u64, 4) + "\n  offset $".spec_bytes() + hex_text(f.offset as u64, 8) + "\n  file ".spec_bytes() + hex_text(f.file as u64, 4) + "\n  start line ".spec_bytes() + dec_text(f.linenum as u64) + "\n  frame reg ".spec_bytes() + dec_text(f.frame_register as u64) + "\n  frame size ".spec_bytes() + dec_text(f.frame_size as u64) + "\n  return pc reg ".spec_bytes() + dec_text(f.return_pc_register as u64) + "\n  mask $".spec_bytes() + hex_text(f.mask as u64, 8) + "\n  mask offset ".spec_bytes() + signed_text(f.mask_offset as i64) + "\n  name ".spec_bytes() + f.name@,
        Section::FunctionEnd(f) => "76 : Function end :\n  section ".spec_bytes() + hex_text(f.section as u64, 4) + "\n  offset $".spec_bytes() + hex_text(f.offset as u64, 8) + "\n  end line ".spec_bytes() + dec_text(f.linenum as u64),
        Section::BlockStart(b) => "78 : Block start :  section ".spec_bytes() + hex_text(b.section as u64, 4) + "\n  offset $".spec_bytes() + hex_text(b.offset as u64, 8) + "\n  start line ".spec_bytes() + dec_text(b.linenum as u64),
        Section::BlockEnd(b) => "80 : Block end\n  section ".spec_bytes() + hex_text(b.section as u64, 4) + "\n  offset $".spec_bytes() + hex_text(b.offset as u64, 8) + "\n  end line ".spec_bytes() + dec_text(b.linenum as u64),
        Section::Def(d) => "82 : Def :\n  section ".spec_bytes() + hex_text(d.section as u64, 4) + "\n  value $".spec_bytes() + hex_text(d.value as u64, 8) + "\n  class ".spec_bytes() + dec_text(d.class as u64) + "\n  type ".spec_bytes() + dec_text(d.def_type as u64) + "\n  size ".spec_bytes() + dec_text(d.size as u64) + "\n  name : ".spec_bytes() + d.name@,
        Section::Def2(d) => "84 : Def2 :\n  section ".spec_bytes() + hex_text(d.section as u64, 4) + "\n  value $".spec_bytes() + hex_text(d.value as u64, 8) + "\n  class ".spec_bytes() + dec_text(d.class as u64) + "\n  type ".spec_bytes() + dec_text(d.def_type as u64) + "\n  size ".spec_bytes() + dec_text(d.size as u64) + "\n  dims ".spec_bytes() + dims_text(d.dims) + " \n  tag ".spec_bytes() + d.tag@ + "\n".spec_bytes() + d.name@,
    }
}

impl Section {
    /// The listing of this section, as the dump tool prints it; code bytes
    /// themselves are not listed.
    pub fn to_listing(&self) -> (r: String)
        ensures
            r@ == lossy_text(section_listing(*self, false)),
    {
        self.listing_with_spelling(false)
    }

    /// The listing of this section; `british` selects the spelling
    /// "Uninitialised" for a BSS section.
    #[verifier::rlimit(100)]
    pub fn listing_with_spelling(&self, british: bool) -> (r: String)
        ensures
            r@ == lossy_text(section_listing(*self, british)),
    {
        let mut out: Vec<u8> = Vec::new();
        match self {
            Section::NOP => push_str(&mut out, "0 : End of file"),
            Section::Code(c) => {
                push_str(&mut out, "2 : Code ");
                push_dec(&mut out, c.code.len() as u64);
                push_str(&mut out, " bytes");
            },
            Section::RunAtOffset(a, b) => {
                push_str(&mut out, "RunAtOffset(");
                push_dec(&mut out, *a as u64);
                push_str(&mut out, ", ");
                push_dec(&mut out, *b as u64);
                push_str(&mut out, ")");
            },
            Section::SectionSwitch(s) => {
                push_str(&mut out, "6 : Switch to section ");
                push_hex(&mut out, s.id as u64, 0);
            },
            Section::BSS(size) => {
                if british {
                    push_str(&mut out, "8 : Uninitialised data, ");
                } else {
                    push_str(&mut out, "8 : Uninitialized data, ");
                }
                push_dec(&mut out, *size as u64);
                push_str(&mut out, " bytes");
            },
            Section::Patch(p) => {
                push_str(&mut out, "10 : Patch type ");
                push_dec(&mut out, p.tag as u64);
                push_str(&mut out, " at offset ");
                push_hex(&mut out, p.offset as u64, 0);
                push_str(&mut out, " with ");
                push_expression(&mut out, &p.expression);
            },
            Section::XDEF(x) => {
                push_str(&mut out, "12 : XDEF symbol number ");
                push_hex(&mut out, x.number as u64, 0);
                push_str(&mut out, " '");
                push_bytes(&mut out, &x.symbol_name);
                push_str(&mut out, "' at offset ");
                push_hex(&mut out, x.offset as u64, 0);
                push_str(&mut out, " in section ");
                push_hex(&mut out, x.section as u64, 0);
            },
            Section::XREF(x) => {
                push_str(&mut out, "14 : XREF symbol number ");
                push_hex(&mut out, x.number as u64, 0);
                push_str(&mut out, " '");
                push_bytes(&mut out, &x.symbol_name);
                push_str(&mut out, "'");
            },
            Section::LNKHeader(h) => {
                push_str(&mut out, "16 : Section symbol number ");
                push_hex(&mut out, h.section as u64, 0);
                push_str(&mut out, " '");
                push_bytes(&mut out, &h.section_type);
                push_str(&mut out, "' in group ");
                push_dec(&mut out, h.group as u64);
                push_str(&mut out, " alignment ");
                push_dec(&mut out, h.align as u64);
            },
            Section::LocalSymbol(s) => {
                push_str(&mut out, "18 : Local symbol '");
                push_bytes(&mut out, &s.name);
                push_str(&mut out, "' at offset ");
                push_hex(&mut out, s.offset as u64, 0);
                push_str(&mut out, " in section ");
                push_hex(&mut out, s.section as u64, 0);
            },
            Section::GroupSymbol(s) => {
                push_str(&mut out, "20 : Group symbol number ");
                push_hex(&mut out, s.number as u64, 0);
                push_str(&mut out, " `");
                push_bytes(&mut out, &s.name);
                push_str(&mut out, "` type ");
                push_dec(&mut out, s.sym_type as u64);
            },
            Section::Filename(f) => {
                push_str(&mut out, "28 : Define file number ");
                push_hex(&mut out, f.number as u64, 0);
                push_str(&mut out, " as \"");
                push_bytes(&mut out, &f.name);
                push_str(&mut out, "\"");
            },
            Section::SetMXInfo(m) => {
                push_str(&mut out, "44 : Set MX info at offset ");
                push_hex(&mut out, m.offset as u64, 0);
                push_str(&mut out, " to ");
                push_hex(&mut out, m.value as u64, 0);
            },
            Section::CPU(c) => {
                push_str(&mut out, "46 : Processor type ");
                push_dec(&mut out, *c as u64);
            },
            Section::XBSS(x) => {
                push_str(&mut out, "48 : XBSS symbol number ");
                push_hex(&mut out, x.number as u64, 0);
                push_str(&mut out, " '");
                push_bytes(&mut out, &x.name);
                push_str(&mut out, "' size ");
                push_hex(&mut out, x.size as u64, 0);
                push_str(&mut out, " in section ");
                push_hex(&mut out, x.section as u64, 0);
            },
            Section::IncSLDLineNum(offset) => {
                push_str(&mut out, "50 : Inc SLD linenum at offset ");
                push_hex(&mut out, *offset as u64, 0);
            },
            Section::IncSLDLineNumByte(offset, byte) => {
                push_str(&mut out, "52 : Inc SLD linenum by byte ");
                push_dec(&mut out, *byte as u64);
                push_str(&mut out, " at offset ");
                push_hex(&mut out, *offset as u64, 0);
            },
            Section::SetSLDLineNum(l) => {
                push_str(&mut out, "56 : Set SLD linenum to ");
                push_dec(&mut out, l.linenum as u64);
                push_str(&mut out, " at offset ");
                push_hex(&mut out, l.offset as u64, 0);
            },
            Section::SetSLDLineNumFile(l) => {
                push_str(&mut out, "58 : Set SLD linenum to ");
                push_dec(&mut out, l.linenum as u64);
                push_str(&mut out, " at offset ");
                push_hex(&mut out, l.offset as u64, 0);
                push_str(&mut out, " in file ");
                push_hex(&mut out, l.file as u64, 0);
            },
            Section::EndSLDInfo(offset) => {
                push_str(&mut out, "60 : End SLD info at offset ");
                push_hex(&mut out, *offset as u64, 0);
            },
            Section::FunctionStart(f) => {
                push_str(&mut out, "74 : Function start :\n  section ");
                push_hex(&mut out, f.section as u64, 4);
                push_str(&mut out, "\n  offset $");
                push_hex(&mut out, f.offset as u64, 8);
                push_str(&mut out, "\n  file ");
                push_hex(&mut out, f.file as u64, 4);
                push_str(&mut out, "\n  start line ");
                push_dec(&mut out, f.linenum as u64);
                push_str(&mut out, "\n  frame reg ");
                push_dec(&mut out, f.frame_register as u64);
                push_str(&mut out, "\n  frame size ");
                push_dec(&mut out, f.frame_size as u64);
                push_str(&mut out, "\n  return pc reg ");
                push_dec(&mut out, f.return_pc_register as u64);
                push_str(&mut out, "\n  mask $");
                push_hex(&mut out, f.mask as u64, 8);
                push_str(&mut out, "\n  mask offset ");
                push_signed(&mut out, f.mask_offset as i64);
                push_str(&mut out, "\n  name ");
                push_bytes(&mut out, &f.name);
            },
            Section::FunctionEnd(f) => {
                push_str(&mut out, "76 : Function end :\n  section ");
                push_hex(&mut out, f.section as u64, 4);
                push_str(&mut out, "\n  offset $");
                push_hex(&mut out, f.offset as u64, 8);
                push_str(&mut out, "\n  end line ");
                push_dec(&mut out, f.linenum as u64);
            },
            Section::BlockStart(b) => {
                push_str(&mut out, "78 : Block start :  section ");
                push_hex(&mut out, b.section as u64, 4);
                push_str(&mut out, "\n  offset $");
                push_hex(&mut out, b.offset as u64, 8);
                push_str(&mut out, "\n  start line ");
                push_dec(&mut out, b.linenum as u64);
            },
            Section::BlockEnd(b) => {
                push_str(&mut out, "80 : Block end\n  section ");
                push_hex(&mut out, b.section as u64, 4);
                push_str(&mut out, "\n  offset $");
                push_hex(&mut out, b.offset as u64, 8);
                push_str(&mut out, "\n  end line ");
                push_dec(&mut out, b.linenum as u64);
            },
            Section::Def(d) => {
                push_str(&mut out, "82 : Def :\n  section ");
                push_hex(&mut out, d.section as u64, 4);
                push_str(&mut out, "\n  value $");
                push_hex(&mut out, d.value as u64, 8);
                push_str(&mut out, "\n  class ");
                push_dec(&mut out, d.class as u64);
                push_str(&mut out, "\n  type ");
                push_dec(&mut out, d.def_type as u64);
                push_str(&mut out, "\n  size ");
                push_dec(&mut out, d.size as u64);
                push_str(&mut out, "\n  name : ");
                push_bytes(&mut out, &d.name);
            },
            Section::Def2(d) => {
                push_str(&mut out, "84 : Def2 :\n  section ");
                push_hex(&mut out, d.section as u64, 4);
                push_str(&mut out, "\n  value $");
                push_hex(&mut out, d.value as u64, 8);
                push_str(&mut out, "\n  class ");
                push_dec(&mut out, d.class as u64);
                push_str(&mut out, "\n  type ");
                push_dec(&mut out, d.def_type as u64);
                push_str(&mut out, "\n  size ");
                push_dec(&mut out, d.size as u64);
                push_str(&mut out, "\n  dims ");
                match d.dims {
                    Dim::Scalar => push_str(&mut out, "0"),
                    Dim::Value(v) => {
                        push_str(&mut out, "1 ");
                        push_dec(&mut out, v as u64);
                    },
                }
                push_str(&mut out, " \n  tag ");
                push_bytes(&mut out, &d.tag);
                push_str(&mut out, "\n");
                push_bytes(&mut out, &d.name);
            },
        }
        assert(out@ =~= section_listing(*self, british));
        text_of(&out)
    }
}

} // verus!
