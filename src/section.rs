//! The tagged records of an object file.
use vstd::prelude::*;

use crate::codec::{
    counted, holds_at, le16, le32, lemma_i32_bits, lemma_le16_injective, lemma_le32_injective,
    read_counted, read_raw, read_u16, read_u32, read_u8, write_counted, write_raw, write_u16,
    write_u32, write_u8, DecodeError,
};
use crate::expression::{
    encodes_at as encodes_expression_at, read_expression, write_expression, Expression,
    MAX_EXPRESSION_DEPTH,
};
use crate::text::{lossy_text, text_of};
use vstd::utf8::{decode_utf8, valid_utf8};

verus! {

/// The dimensions of an array definition.
#[derive(Debug, Clone, PartialEq, Eq)]
pub enum Dim {
    /// No dimension: stored as the `u16` 0.
    Scalar,
    /// One dimension of the given size: stored as the `u16` 1 and a `u32`.
    Value(u32),
}

impl Dim {
    /// The bytes that store this dimension record.
    pub open spec fn encoding(self) -> Seq<u8> {
        match self {
            Dim::Scalar => le16(0),
            Dim::Value(v) => le16(1) + le32(v),
        }
    }

    /// `data` holds the encoding of this record from `pos` on.
    pub open spec fn encodes_at(self, data: Seq<u8>, pos: int) -> bool {
        holds_at(data, pos, pos + self.encoding().len(), self.encoding())
    }

    /// Reads a dimension record at `pos`; it succeeds exactly when one is
    /// stored there.
    pub fn read(data: &[u8], pos: usize) -> (r: Result<(Dim, usize), DecodeError>)
        ensures
            r matches Ok((d, end)) ==> holds_at(data@, pos as int, end as int, d.encoding()),
            forall|x: Dim|
                #[trigger] x.encodes_at(data@, pos as int) ==> (r matches Ok((y, end)) && end == pos
                    + x.encoding().len() && y.encoding() == x.encoding()),
            r matches Err(e) ==> e is Truncated || e is UnknownDimension,
    {
        let ghost d = data@;
        proof {
            assert forall|x: Dim| #[trigger] x.encodes_at(d, pos as int) implies pos + 2 <= d.len()
                && le16(if x is Scalar { 0u16 } else { 1u16 }) == d.subrange(pos as int, pos + 2) by {
                assert(d.subrange(pos as int, pos + 2) =~= x.encoding().subrange(0, 2));
            }
        }
        let (kind, p) = match read_u16(data, pos) {
            Ok(x) => x,
            Err(err) => {
                return Err(err);
            },
        };
        if kind == 0 {
            proof {
                assert forall|x: Dim| #[trigger] x.encodes_at(d, pos as int) implies x is Scalar by {
                    if !(x is Scalar) {
                        lemma_le16_injective(kind, 1);
                    }
                }
            }
            Ok((Dim::Scalar, p))
        } else if kind == 1 {
            proof {
                assert forall|x: Dim| #[trigger] x.encodes_at(d, pos as int) implies !(x is Scalar) by {
                    if x is Scalar {
                        lemma_le16_injective(kind, 0);
                    }
                }
            }
            let (v, end) = match read_u32(data, p) {
                Ok(x) => x,
                Err(err) => {
                    proof {
                        assert forall|x: Dim| #[trigger] x.encodes_at(d, pos as int) implies false by {
                            assert(x.encoding().len() == 6);
                        }
                    }
                    return Err(err);
                },
            };
            assert(data@.subrange(pos as int, end as int) =~= data@.subrange(pos as int, p as int)
                + data@.subrange(p as int, end as int));
            proof {
                assert forall|x: Dim| #[trigger] x.encodes_at(d, pos as int) implies x == Dim::Value(v) by {
                    if let Dim::Value(w) = x {
                        assert(le32(w) =~= d.subrange(p as int, end as int)) by {
                            assert(d.subrange(p as int, end as int) =~= x.encoding().subrange(2, 6));
                        }
                        lemma_le32_injective(v, w);
                    }
                }
            }
            Ok((Dim::Value(v), end))
        } else {
            proof {
                assert forall|x: Dim| #[trigger] x.encodes_at(d, pos as int) implies false by {
                    if x is Scalar {
                        lemma_le16_injective(kind, 0);
                    } else {
                        lemma_le16_injective(kind, 1);
                    }
                }
            }
            Err(DecodeError::UnknownDimension(kind))
        }
    }

    /// Appends this dimension record.
    pub fn write(&self, out: &mut Vec<u8>)
        ensures
            final(out)@ == old(out)@ + self.encoding(),
    {
        match self {
            Dim::Scalar => write_u16(out, 0),
            Dim::Value(v) => {
                write_u16(out, 1);
                write_u32(out, *v);
                assert(out@ =~= old(out)@ + self.encoding());
            },
        }
    }
}

/// The five fixed fields that begin a definition record.
pub open spec fn definition_head(section: u16, value: u32, class: u16, def_type: u16, size: u32) -> Seq<u8> {
    le16(section) + le32(value) + le16(class) + le16(def_type) + le32(size)
}

proof fn lemma_definition_head_injective(
    a: (u16, u32, u16, u16, u32),
    b: (u16, u32, u16, u16, u32),
)
    requires
        definition_head(a.0, a.1, a.2, a.3, a.4) == definition_head(b.0, b.1, b.2, b.3, b.4),
    ensures
        a == b,
{
    let x = definition_head(a.0, a.1, a.2, a.3, a.4);
    let y = definition_head(b.0, b.1, b.2, b.3, b.4);
    assert(x.subrange(0, 2) =~= le16(a.0) && y.subrange(0, 2) =~= le16(b.0));
    assert(x.subrange(2, 6) =~= le32(a.1) && y.subrange(2, 6) =~= le32(b.1));
    assert(x.subrange(6, 8) =~= le16(a.2) && y.subrange(6, 8) =~= le16(b.2));
    assert(x.subrange(8, 10) =~= le16(a.3) && y.subrange(8, 10) =~= le16(b.3));
    assert(x.subrange(10, 14) =~= le32(a.4) && y.subrange(10, 14) =~= le32(b.4));
    lemma_le16_injective(a.0, b.0);
    lemma_le32_injective(a.1, b.1);
    lemma_le16_injective(a.2, b.2);
    lemma_le16_injective(a.3, b.3);
    lemma_le32_injective(a.4, b.4);
}

/// Reads the five fixed fields that begin a definition record.
fn read_definition_head(data: &[u8], pos: usize) -> (r: Result<
    (u16, u32, u16, u16, u32, usize),
    DecodeError,
>)
    ensures
        r is Ok <==> pos + 14 <= data@.len(),
        r matches Ok((s, v, c, t, z, end)) ==> end == pos + 14 && holds_at(
            data@,
            pos as int,
            end as int,
            definition_head(s, v, c, t, z),
        ),
        r matches Err(e) ==> e is Truncated,
{
    if pos > data.len() || data.len() - pos < 14 {
        return Err(DecodeError::Truncated);
    }
    let (s, p1) = read_u16(data, pos)?;
    let (v, p2) = read_u32(data, p1)?;
    let (c, p3) = read_u16(data, p2)?;
    let (t, p4) = read_u16(data, p3)?;
    let (z, p5) = read_u32(data, p4)?;
    assert(data@.subrange(pos as int, p5 as int) =~= data@.subrange(pos as int, p1 as int)
        + data@.subrange(p1 as int, p2 as int) + data@.subrange(p2 as int, p3 as int)
        + data@.subrange(p3 as int, p4 as int) + data@.subrange(p4 as int, p5 as int));
    Ok((s, v, c, t, z, p5))
}


/// Machine code for the target processor.
#[derive(Debug, Clone, PartialEq)]
pub struct Code {
    pub size: u16,
    pub code: Vec<u8>,
}

impl Code {
    /// The bytes that store this record, after its section tag.
    pub open spec fn encoding(self) -> Seq<u8> {
        le16(self.size)
            + self.code@
    }

    /// Every length field counts the bytes that follow it, and an expression
    /// nests no deeper than the reader accepts.
    pub open spec fn well_formed(self) -> bool {
        self.code@.len() == self.size
    }

    /// `data` holds the encoding of this record from `pos` on.
    pub open spec fn encodes_at(self, data: Seq<u8>, pos: int) -> bool {
        holds_at(data, pos, pos + self.encoding().len(), self.encoding())
    }

    /// Reads this record at `pos`, just after its section tag. It succeeds
    /// exactly when a well-formed record is stored there.
    pub fn read(data: &[u8], pos: usize) -> (r: Result<(Code, usize), DecodeError>)
        ensures
            r matches Ok((v, end)) ==> holds_at(data@, pos as int, end as int, v.encoding())
                && v.well_formed(),
            forall|v: Code|
                #[trigger] v.encodes_at(data@, pos as int) && v.well_formed() ==> (r matches Ok(
                    (x, end),
                ) && end == pos + v.encoding().len() && x.encoding() == v.encoding()),
            r matches Err(e) ==> e is Truncated,
    {
        let ghost d = data@;
        let (size, p1) = match read_u16(data, pos) {
            Ok(x) => x,
            Err(err) => {
                proof {
                assert forall|v: Code| #[trigger] v.encodes_at(d, pos as int) && v.well_formed() implies false by {
                    let e = v.encoding();
                    assert(d.subrange(pos as int, pos + e.len()) == e);
                    assert(e.subrange(0int, 0int + 2) =~= le16(v.size));
                    assert(d.subrange(pos + 0int, pos + 0int + 2) =~= e.subrange(0int, 0int + 2));
                }
                }
                return Err(err);
            },
        };
        let (code, p2) = match read_raw(data, p1, size as usize) {
            Ok(x) => x,
            Err(err) => {
                proof {
                assert forall|v: Code| #[trigger] v.encodes_at(d, pos as int) && v.well_formed() implies false by {
                    let e = v.encoding();
                    assert(d.subrange(pos as int, pos + e.len()) == e);
                    assert(e.subrange(0int, 0int + 2) =~= le16(v.size));
                    assert(d.subrange(pos + 0int, pos + 0int + 2) =~= e.subrange(0int, 0int + 2));
                    lemma_le16_injective(size, v.size);
                    assert(e.subrange(0int + 2, 0int + 2 + (v.size as int)) =~= v.code@);
                    assert(d.subrange(pos + 0int + 2, pos + 0int + 2 + (v.size as int)) =~= e.subrange(0int + 2, 0int + 2 + (v.size as int)));
                }
                }
                return Err(err);
            },
        };
        let v0 = Code { size, code };
        assert(d.subrange(pos as int, p2 as int) =~= d.subrange(pos as int, p1 as int) + d.subrange(p1 as int, p2 as int));
        assert(d.subrange(pos as int, p2 as int) =~= v0.encoding());
        let end = p2;
        proof {
                assert forall|v: Code| #[trigger] v.encodes_at(d, pos as int) && v.well_formed() implies v0.encoding() == v.encoding() && end == pos + v.encoding().len() by {
                    let e = v.encoding();
                    assert(d.subrange(pos as int, pos + e.len()) == e);
                    assert(e.subrange(0int, 0int + 2) =~= le16(v.size));
                    assert(d.subrange(pos + 0int, pos + 0int + 2) =~= e.subrange(0int, 0int + 2));
                    lemma_le16_injective(size, v.size);
                    assert(e.subrange(0int + 2, 0int + 2 + (v.size as int)) =~= v.code@);
                    assert(d.subrange(pos + 0int + 2, pos + 0int + 2 + (v.size as int)) =~= e.subrange(0int + 2, 0int + 2 + (v.size as int)));
                    assert(code@ =~= v.code@);
                    assert(v0.encoding() =~= v.encoding());
                }
        }
        Ok((v0, end))
    }

    /// Appends this record, without its section tag.
    pub fn write(&self, out: &mut Vec<u8>)
        ensures
            final(out)@ == old(out)@ + self.encoding(),
    {
        write_u16(out, self.size);
        write_raw(out, &self.code);
        assert(out@ =~= old(out)@ + self.encoding());
    }

    /// The raw bytes of this record, to be read as the current CPU section says.
    pub fn code(&self) -> (r: &Vec<u8>)
        ensures
            r@ == self.code@,
    {
        &self.code
    }
}

/// Tells the linker which section the following records belong to.
#[derive(Debug, Clone, PartialEq)]
pub struct SectionSwitch {
    pub id: u16,
}

impl SectionSwitch {
    /// The bytes that store this record, after its section tag.
    pub open spec fn encoding(self) -> Seq<u8> {
        le16(self.id)
    }

    /// Every length field counts the bytes that follow it, and an expression
    /// nests no deeper than the reader accepts.
    pub open spec fn well_formed(self) -> bool {
        true
    }

    /// `data` holds the encoding of this record from `pos` on.
    pub open spec fn encodes_at(self, data: Seq<u8>, pos: int) -> bool {
        holds_at(data, pos, pos + self.encoding().len(), self.encoding())
    }

    /// Reads this record at `pos`, just after its section tag. It succeeds
    /// exactly when a well-formed record is stored there.
    pub fn read(data: &[u8], pos: usize) -> (r: Result<(SectionSwitch, usize), DecodeError>)
        ensures
            r matches Ok((v, end)) ==> holds_at(data@, pos as int, end as int, v.encoding())
                && v.well_formed(),
            forall|v: SectionSwitch|
                #[trigger] v.encodes_at(data@, pos as int) && v.well_formed() ==> (r matches Ok(
                    (x, end),
                ) && end == pos + v.encoding().len() && x.encoding() == v.encoding()),
            r matches Err(e) ==> e is Truncated,
    {
        let ghost d = data@;
        let (id, p1) = match read_u16(data, pos) {
            Ok(x) => x,
            Err(err) => {
                proof {
                assert forall|v: SectionSwitch| #[trigger] v.encodes_at(d, pos as int) && v.well_formed() implies false by {
                    let e = v.encoding();
                    assert(d.subrange(pos as int, pos + e.len()) == e);
                    assert(e.subrange(0int, 0int + 2) =~= le16(v.id));
                    assert(d.subrange(pos + 0int, pos + 0int + 2) =~= e.subrange(0int, 0int + 2));
                }
                }
                return Err(err);
            },
        };
        let v0 = SectionSwitch { id };
        assert(d.subrange(pos as int, p1 as int) =~= v0.encoding());
        let end = p1;
        proof {
                assert forall|v: SectionSwitch| #[trigger] v.encodes_at(d, pos as int) && v.well_formed() implies v0.encoding() == v.encoding() && end == pos + v.encoding().len() by {
                    let e = v.encoding();
                    assert(d.subrange(pos as int, pos + e.len()) == e);
                    assert(e.subrange(0int, 0int + 2) =~= le16(v.id));
                    assert(d.subrange(pos + 0int, pos + 0int + 2) =~= e.subrange(0int, 0int + 2));
                    lemma_le16_injective(id, v.id);
                    assert(v0.encoding() =~= v.encoding());
                }
        }
        Ok((v0, end))
    }

    /// Appends this record, without its section tag.
    pub fn write(&self, out: &mut Vec<u8>)
        ensures
            final(out)@ == old(out)@ + self.encoding(),
    {
        write_u16(out, self.id);
        assert(out@ =~= old(out)@ + self.encoding());
    }
}

/// A relocation: the value of `expression` is applied at `offset` in the current section.
#[derive(Debug, Clone, PartialEq)]
pub struct Patch {
    pub tag: u8,
    pub offset: u16,
    pub expression: Expression,
}

impl Patch {
    /// The bytes that store this record, after its section tag.
    pub open spec fn encoding(self) -> Seq<u8> {
        seq![self.tag]
            + le16(self.offset)
            + self.expression.encoding()
    }

    /// Every length field counts the bytes that follow it, and an expression
    /// nests no deeper than the reader accepts.
    pub open spec fn well_formed(self) -> bool {
        self.expression.depth() <= MAX_EXPRESSION_DEPTH
    }

    /// `data` holds the encoding of this record from `pos` on.
    pub open spec fn encodes_at(self, data: Seq<u8>, pos: int) -> bool {
        holds_at(data, pos, pos + self.encoding().len(), self.encoding())
    }

    /// Reads this record at `pos`, just after its section tag. It succeeds
    /// exactly when a well-formed record is stored there.
    pub fn read(data: &[u8], pos: usize) -> (r: Result<(Patch, usize), DecodeError>)
        ensures
            r matches Ok((v, end)) ==> holds_at(data@, pos as int, end as int, v.encoding())
                && v.well_formed(),
            forall|v: Patch|
                #[trigger] v.encodes_at(data@, pos as int) && v.well_formed() ==> (r matches Ok(
                    (x, end),
                ) && end == pos + v.encoding().len() && x.encoding() == v.encoding()),
            r matches Err(e) ==> e is Truncated || e is UnknownExpressionTag || e is NestingTooDeep,
    {
        let ghost d = data@;
        let (tag, p1) = match read_u8(data, pos) {
            Ok(x) => x,
            Err(err) => {
                proof {
                assert forall|v: Patch| #[trigger] v.encodes_at(d, pos as int) && v.well_formed() implies false by {
                    let e = v.encoding();
                    assert(d.subrange(pos as int, pos + e.len()) == e);
                    assert(e.subrange(0int, 0int + 1) =~= seq![v.tag]);
                    assert(d.subrange(pos + 0int, pos + 0int + 1) =~= e.subrange(0int, 0int + 1));
                }
                }
                return Err(err);
            },
        };
        let (offset, p2) = match read_u16(data, p1) {
            Ok(x) => x,
            Err(err) => {
                proof {
                assert forall|v: Patch| #[trigger] v.encodes_at(d, pos as int) && v.well_formed() implies false by {
                    let e = v.encoding();
                    assert(d.subrange(pos as int, pos + e.len()) == e);
                    assert(e.subrange(0int, 0int + 1) =~= seq![v.tag]);
                    assert(d.subrange(pos + 0int, pos + 0int + 1) =~= e.subrange(0int, 0int + 1));
                    assert(d.subrange(pos as int, pos + 1)[0] == tag);
                    assert(d.subrange(pos + 0int, pos + 0int + 1)[0] == v.tag);
                    assert(e.subrange(0int + 1, 0int + 1 + 2) =~= le16(v.offset));
                    assert(d.subrange(pos + 0int + 1, pos + 0int + 1 + 2) =~= e.subrange(0int + 1, 0int + 1 + 2));
                }
                }
                return Err(err);
            },
        };
        let (expression, p3) = match read_expression(data, p2, MAX_EXPRESSION_DEPTH) {
            Ok(x) => x,
            Err(err) => {
                proof {
                assert forall|v: Patch| #[trigger] v.encodes_at(d, pos as int) && v.well_formed() implies false by {
                    let e = v.encoding();
                    assert(d.subrange(pos as int, pos + e.len()) == e);
                    assert(e.subrange(0int, 0int + 1) =~= seq![v.tag]);
                    assert(d.subrange(pos + 0int, pos + 0int + 1) =~= e.subrange(0int, 0int + 1));
                    assert(d.subrange(pos as int, pos + 1)[0] == tag);
                    assert(d.subrange(pos + 0int, pos + 0int + 1)[0] == v.tag);
                    assert(e.subrange(0int + 1, 0int + 1 + 2) =~= le16(v.offset));
                    assert(d.subrange(pos + 0int + 1, pos + 0int + 1 + 2) =~= e.subrange(0int + 1, 0int + 1 + 2));
                    lemma_le16_injective(offset, v.offset);
                    assert(e.subrange(0int + 1 + 2, 0int + 1 + 2 + (v.expression.encoding().len() as int)) =~= v.expression.encoding());
                    assert(d.subrange(pos + 0int + 1 + 2, pos + 0int + 1 + 2 + (v.expression.encoding().len() as int)) =~= e.subrange(0int + 1 + 2, 0int + 1 + 2 + (v.expression.encoding().len() as int)));
                    assert(encodes_expression_at(d, p2 as int, v.expression));
                }
                }
                return Err(err);
            },
        };
        let v0 = Patch { tag, offset, expression };
        assert(d.subrange(pos as int, p3 as int) =~= d.subrange(pos as int, p1 as int) + d.subrange(p1 as int, p2 as int) + d.subrange(p2 as int, p3 as int));
        assert(d.subrange(pos as int, p3 as int) =~= v0.encoding());
        let end = p3;
        proof {
                assert forall|v: Patch| #[trigger] v.encodes_at(d, pos as int) && v.well_formed() implies v0.encoding() == v.encoding() && end == pos + v.encoding().len() by {
                    let e = v.encoding();
                    assert(d.subrange(pos as int, pos + e.len()) == e);
                    assert(e.subrange(0int, 0int + 1) =~= seq![v.tag]);
                    assert(d.subrange(pos + 0int, pos + 0int + 1) =~= e.subrange(0int, 0int + 1));
                    assert(d.subrange(pos as int, pos + 1)[0] == tag);
                    assert(d.subrange(pos + 0int, pos + 0int + 1)[0] == v.tag);
                    assert(e.subrange(0int + 1, 0int + 1 + 2) =~= le16(v.offset));
                    assert(d.subrange(pos + 0int + 1, pos + 0int + 1 + 2) =~= e.subrange(0int + 1, 0int + 1 + 2));
                    lemma_le16_injective(offset, v.offset);
                    assert(e.subrange(0int + 1 + 2, 0int + 1 + 2 + (v.expression.encoding().len() as int)) =~= v.expression.encoding());
                    assert(d.subrange(pos + 0int + 1 + 2, pos + 0int + 1 + 2 + (v.expression.encoding().len() as int)) =~= e.subrange(0int + 1 + 2, 0int + 1 + 2 + (v.expression.encoding().len() as int)));
                    assert(encodes_expression_at(d, p2 as int, v.expression));
                    assert(v0.encoding() =~= v.encoding());
                }
        }
        Ok((v0, end))
    }

    /// Appends this record, without its section tag.
    pub fn write(&self, out: &mut Vec<u8>)
        ensures
            final(out)@ == old(out)@ + self.encoding(),
    {
        write_u8(out, self.tag);
        write_u16(out, self.offset);
        write_expression(out, &self.expression);
        assert(out@ =~= old(out)@ + self.encoding());
    }
}

/// Section header: its number, group, alignment and type name.
#[derive(Debug, Clone, PartialEq)]
pub struct LNKHeader {
    pub section: u16,
    pub group: u16,
    pub align: u8,
    pub section_type_size: u8,
    pub section_type: Vec<u8>,
}

impl LNKHeader {
    /// The bytes that store this record, after its section tag.
    pub open spec fn encoding(self) -> Seq<u8> {
        le16(self.section)
            + le16(self.group)
            + seq![self.align]
            + counted(self.section_type_size, self.section_type@)
    }

    /// Every length field counts the bytes that follow it, and an expression
    /// nests no deeper than the reader accepts.
    pub open spec fn well_formed(self) -> bool {
        self.section_type@.len() == self.section_type_size
    }

    /// `data` holds the encoding of this record from `pos` on.
    pub open spec fn encodes_at(self, data: Seq<u8>, pos: int) -> bool {
        holds_at(data, pos, pos + self.encoding().len(), self.encoding())
    }

    /// Reads this record at `pos`, just after its section tag. It succeeds
    /// exactly when a well-formed record is stored there.
    pub fn read(data: &[u8], pos: usize) -> (r: Result<(LNKHeader, usize), DecodeError>)
        ensures
            r matches Ok((v, end)) ==> holds_at(data@, pos as int, end as int, v.encoding())
                && v.well_formed(),
            forall|v: LNKHeader|
                #[trigger] v.encodes_at(data@, pos as int) && v.well_formed() ==> (r matches Ok(
                    (x, end),
                ) && end == pos + v.encoding().len() && x.encoding() == v.encoding()),
            r matches Err(e) ==> e is Truncated,
    {
        let ghost d = data@;
        let (section, p1) = match read_u16(data, pos) {
            Ok(x) => x,
            Err(err) => {
                proof {
                assert forall|v: LNKHeader| #[trigger] v.encodes_at(d, pos as int) && v.well_formed() implies false by {
                    let e = v.encoding();
                    assert(d.subrange(pos as int, pos + e.len()) == e);
                    assert(e.subrange(0int, 0int + 2) =~= le16(v.section));
                    assert(d.subrange(pos + 0int, pos + 0int + 2) =~= e.subrange(0int, 0int + 2));
                }
                }
                return Err(err);
            },
        };
        let (group, p2) = match read_u16(data, p1) {
            Ok(x) => x,
            Err(err) => {
                proof {
                assert forall|v: LNKHeader| #[trigger] v.encodes_at(d, pos as int) && v.well_formed() implies false by {
                    let e = v.encoding();
                    assert(d.subrange(pos as int, pos + e.len()) == e);
                    assert(e.subrange(0int, 0int + 2) =~= le16(v.section));
                    assert(d.subrange(pos + 0int, pos + 0int + 2) =~= e.subrange(0int, 0int + 2));
                    lemma_le16_injective(section, v.section);
                    assert(e.subrange(0int + 2, 0int + 2 + 2) =~= le16(v.group));
                    assert(d.subrange(pos + 0int + 2, pos + 0int + 2 + 2) =~= e.subrange(0int + 2, 0int + 2 + 2));
                }
                }
                return Err(err);
            },
        };
        let (align, p3) = match read_u8(data, p2) {
            Ok(x) => x,
            Err(err) => {
                proof {
                assert forall|v: LNKHeader| #[trigger] v.encodes_at(d, pos as int) && v.well_formed() implies false by {
                    let e = v.encoding();
                    assert(d.subrange(pos as int, pos + e.len()) == e);
                    assert(e.subrange(0int, 0int + 2) =~= le16(v.section));
                    assert(d.subrange(pos + 0int, pos + 0int + 2) =~= e.subrange(0int, 0int + 2));
                    lemma_le16_injective(section, v.section);
                    assert(e.subrange(0int + 2, 0int + 2 + 2) =~= le16(v.group));
                    assert(d.subrange(pos + 0int + 2, pos + 0int + 2 + 2) =~= e.subrange(0int + 2, 0int + 2 + 2));
                    lemma_le16_injective(group, v.group);
                    assert(e.subrange(0int + 2 + 2, 0int + 2 + 2 + 1) =~= seq![v.align]);
                    assert(d.subrange(pos + 0int + 2 + 2, pos + 0int + 2 + 2 + 1) =~= e.subrange(0int + 2 + 2, 0int + 2 + 2 + 1));
                }
                }
                return Err(err);
            },
        };
        let (section_type_size, section_type, p4) = match read_counted(data, p3) {
            Ok(x) => x,
            Err(err) => {
                proof {
                assert forall|v: LNKHeader| #[trigger] v.encodes_at(d, pos as int) && v.well_formed() implies false by {
                    let e = v.encoding();
                    assert(d.subrange(pos as int, pos + e.len()) == e);
                    assert(e.subrange(0int, 0int + 2) =~= le16(v.section));
                    assert(d.subrange(pos + 0int, pos + 0int + 2) =~= e.subrange(0int, 0int + 2));
                    lemma_le16_injective(section, v.section);
                    assert(e.subrange(0int + 2, 0int + 2 + 2) =~= le16(v.group));
                    assert(d.subrange(pos + 0int + 2, pos + 0int + 2 + 2) =~= e.subrange(0int + 2, 0int + 2 + 2));
                    lemma_le16_injective(group, v.group);
                    assert(e.subrange(0int + 2 + 2, 0int + 2 + 2 + 1) =~= seq![v.align]);
                    assert(d.subrange(pos + 0int + 2 + 2, pos + 0int + 2 + 2 + 1) =~= e.subrange(0int + 2 + 2, 0int + 2 + 2 + 1));
                    assert(d.subrange(p2 as int, p2 + 1)[0] == align);
                    assert(d.subrange(pos + 0int + 2 + 2, pos + 0int + 2 + 2 + 1)[0] == v.align);
                    assert(e.subrange(0int + 2 + 2 + 1, 0int + 2 + 2 + 1 + (1 + v.section_type_size as int)) =~= counted(v.section_type_size, v.section_type@));
                    assert(d.subrange(pos + 0int + 2 + 2 + 1, pos + 0int + 2 + 2 + 1 + (1 + v.section_type_size as int)) =~= e.subrange(0int + 2 + 2 + 1, 0int + 2 + 2 + 1 + (1 + v.section_type_size as int)));
                    assert(d.subrange(pos + 0int + 2 + 2 + 1, pos + 0int + 2 + 2 + 1 + (1 + v.section_type_size as int))[0] == v.section_type_size);
                }
                }
                return Err(err);
            },
        };
        assert(d.subrange(p3 as int, p4 as int)[0] == section_type_size);
        assert(p4 == p3 + 1 + section_type_size);
        let v0 = LNKHeader { section, group, align, section_type_size, section_type };
        assert(d.subrange(pos as int, p4 as int) =~= d.subrange(pos as int, p1 as int) + d.subrange(p1 as int, p2 as int) + d.subrange(p2 as int, p3 as int) + d.subrange(p3 as int, p4 as int));
        assert(d.subrange(pos as int, p4 as int) =~= v0.encoding());
        let end = p4;
        proof {
                assert forall|v: LNKHeader| #[trigger] v.encodes_at(d, pos as int) && v.well_formed() implies v0.encoding() == v.encoding() && end == pos + v.encoding().len() by {
                    let e = v.encoding();
                    assert(d.subrange(pos as int, pos + e.len()) == e);
                    assert(e.subrange(0int, 0int + 2) =~= le16(v.section));
                    assert(d.subrange(pos + 0int, pos + 0int + 2) =~= e.subrange(0int, 0int + 2));
                    lemma_le16_injective(section, v.section);
                    assert(e.subrange(0int + 2, 0int + 2 + 2) =~= le16(v.group));
                    assert(d.subrange(pos + 0int + 2, pos + 0int + 2 + 2) =~= e.subrange(0int + 2, 0int + 2 + 2));
                    lemma_le16_injective(group, v.group);
                    assert(e.subrange(0int + 2 + 2, 0int + 2 + 2 + 1) =~= seq![v.align]);
                    assert(d.subrange(pos + 0int + 2 + 2, pos + 0int + 2 + 2 + 1) =~= e.subrange(0int + 2 + 2, 0int + 2 + 2 + 1));
                    assert(d.subrange(p2 as int, p2 + 1)[0] == align);
                    assert(d.subrange(pos + 0int + 2 + 2, pos + 0int + 2 + 2 + 1)[0] == v.align);
                    assert(e.subrange(0int + 2 + 2 + 1, 0int + 2 + 2 + 1 + (1 + v.section_type_size as int)) =~= counted(v.section_type_size, v.section_type@));
                    assert(d.subrange(pos + 0int + 2 + 2 + 1, pos + 0int + 2 + 2 + 1 + (1 + v.section_type_size as int)) =~= e.subrange(0int + 2 + 2 + 1, 0int + 2 + 2 + 1 + (1 + v.section_type_size as int)));
                    assert(d.subrange(p3 as int, p3 + 1 + section_type_size)[0] == section_type_size);
                    assert(d.subrange(pos + 0int + 2 + 2 + 1, pos + 0int + 2 + 2 + 1 + (1 + v.section_type_size as int))[0] == v.section_type_size);
                    assert(p4 == p3 + 1 + section_type_size);
                    assert(section_type@ =~= v.section_type@) by {
                        assert(d.subrange(p3 + 1, p3 + 1 + section_type_size) =~= d.subrange(p3 as int, p4 as int).subrange(1, 1 + section_type_size));
                        assert(counted(section_type_size, section_type@).subrange(1, 1 + section_type_size) =~= section_type@);
                        assert(d.subrange(pos + 0int + 2 + 2 + 1 + 1, pos + 0int + 2 + 2 + 1 + (1 + v.section_type_size as int)) =~= d.subrange(pos + 0int + 2 + 2 + 1, pos + 0int + 2 + 2 + 1 + (1 + v.section_type_size as int)).subrange(1, 0int + 2 + 2 + 1 + (1 + v.section_type_size as int) - (0int + 2 + 2 + 1)));
                        assert(counted(v.section_type_size, v.section_type@).subrange(1, 0int + 2 + 2 + 1 + (1 + v.section_type_size as int) - (0int + 2 + 2 + 1)) =~= v.section_type@);
                    }
                    assert(v0.encoding() =~= v.encoding());
                }
        }
        Ok((v0, end))
    }

    /// Appends this record, without its section tag.
    pub fn write(&self, out: &mut Vec<u8>)
        ensures
            final(out)@ == old(out)@ + self.encoding(),
    {
        write_u16(out, self.section);
        write_u16(out, self.group);
        write_u8(out, self.align);
        write_counted(out, self.section_type_size, &self.section_type);
        assert(out@ =~= old(out)@ + self.encoding());
    }

    /// The `section_type` bytes as text, each invalid sequence replaced by U+FFFD.
    pub fn section_type(&self) -> (r: String)
        ensures
            r@ == lossy_text(self.section_type@),
            valid_utf8(self.section_type@) ==> r@ == decode_utf8(self.section_type@),
    {
        text_of(&self.section_type)
    }
}

/// A symbol visible only within its module.
#[derive(Debug, Clone, PartialEq)]
pub struct LocalSymbol {
    pub section: u16,
    pub offset: u32,
    pub name_size: u8,
    pub name: Vec<u8>,
}

impl LocalSymbol {
    /// The bytes that store this record, after its section tag.
    pub open spec fn encoding(self) -> Seq<u8> {
        le16(self.section)
            + le32(self.offset)
            + counted(self.name_size, self.name@)
    }

    /// Every length field counts the bytes that follow it, and an expression
    /// nests no deeper than the reader accepts.
    pub open spec fn well_formed(self) -> bool {
        self.name@.len() == self.name_size
    }

    /// `data` holds the encoding of this record from `pos` on.
    pub open spec fn encodes_at(self, data: Seq<u8>, pos: int) -> bool {
        holds_at(data, pos, pos + self.encoding().len(), self.encoding())
    }

    /// Reads this record at `pos`, just after its section tag. It succeeds
    /// exactly when a well-formed record is stored there.
    pub fn read(data: &[u8], pos: usize) -> (r: Result<(LocalSymbol, usize), DecodeError>)
        ensures
            r matches Ok((v, end)) ==> holds_at(data@, pos as int, end as int, v.encoding())
                && v.well_formed(),
            forall|v: LocalSymbol|
                #[trigger] v.encodes_at(data@, pos as int) && v.well_formed() ==> (r matches Ok(
                    (x, end),
                ) && end == pos + v.encoding().len() && x.encoding() == v.encoding()),
            r matches Err(e) ==> e is Truncated,
    {
        let ghost d = data@;
        let (section, p1) = match read_u16(data, pos) {
            Ok(x) => x,
            Err(err) => {
                proof {
                assert forall|v: LocalSymbol| #[trigger] v.encodes_at(d, pos as int) && v.well_formed() implies false by {
                    let e = v.encoding();
                    assert(d.subrange(pos as int, pos + e.len()) == e);
                    assert(e.subrange(0int, 0int + 2) =~= le16(v.section));
                    assert(d.subrange(pos + 0int, pos + 0int + 2) =~= e.subrange(0int, 0int + 2));
                }
                }
                return Err(err);
            },
        };
        let (offset, p2) = match read_u32(data, p1) {
            Ok(x) => x,
            Err(err) => {
                proof {
                assert forall|v: LocalSymbol| #[trigger] v.encodes_at(d, pos as int) && v.well_formed() implies false by {
                    let e = v.encoding();
                    assert(d.subrange(pos as int, pos + e.len()) == e);
                    assert(e.subrange(0int, 0int + 2) =~= le16(v.section));
                    assert(d.subrange(pos + 0int, pos + 0int + 2) =~= e.subrange(0int, 0int + 2));
                    lemma_le16_injective(section, v.section);
                    assert(e.subrange(0int + 2, 0int + 2 + 4) =~= le32(v.offset));
                    assert(d.subrange(pos + 0int + 2, pos + 0int + 2 + 4) =~= e.subrange(0int + 2, 0int + 2 + 4));
                }
                }
                return Err(err);
            },
        };
        let (name_size, name, p3) = match read_counted(data, p2) {
            Ok(x) => x,
            Err(err) => {
                proof {
                assert forall|v: LocalSymbol| #[trigger] v.encodes_at(d, pos as int) && v.well_formed() implies false by {
                    let e = v.encoding();
                    assert(d.subrange(pos as int, pos + e.len()) == e);
                    assert(e.subrange(0int, 0int + 2) =~= le16(v.section));
                    assert(d.subrange(pos + 0int, pos + 0int + 2) =~= e.subrange(0int, 0int + 2));
                    lemma_le16_injective(section, v.section);
                    assert(e.subrange(0int + 2, 0int + 2 + 4) =~= le32(v.offset));
                    assert(d.subrange(pos + 0int + 2, pos + 0int + 2 + 4) =~= e.subrange(0int + 2, 0int + 2 + 4));
                    lemma_le32_injective(offset, v.offset);
                    assert(e.subrange(0int + 2 + 4, 0int + 2 + 4 + (1 + v.name_size as int)) =~= counted(v.name_size, v.name@));
                    assert(d.subrange(pos + 0int + 2 + 4, pos + 0int + 2 + 4 + (1 + v.name_size as int)) =~= e.subrange(0int + 2 + 4, 0int + 2 + 4 + (1 + v.name_size as int)));
                    assert(d.subrange(pos + 0int + 2 + 4, pos + 0int + 2 + 4 + (1 + v.name_size as int))[0] == v.name_size);
                }
                }
                return Err(err);
            },
        };
        assert(d.subrange(p2 as int, p3 as int)[0] == name_size);
        assert(p3 == p2 + 1 + name_size);
        let v0 = LocalSymbol { section, offset, name_size, name };
        assert(d.subrange(pos as int, p3 as int) =~= d.subrange(pos as int, p1 as int) + d.subrange(p1 as int, p2 as int) + d.subrange(p2 as int, p3 as int));
        assert(d.subrange(pos as int, p3 as int) =~= v0.encoding());
        let end = p3;
        proof {
                assert forall|v: LocalSymbol| #[trigger] v.encodes_at(d, pos as int) && v.well_formed() implies v0.encoding() == v.encoding() && end == pos + v.encoding().len() by {
                    let e = v.encoding();
                    assert(d.subrange(pos as int, pos + e.len()) == e);
                    assert(e.subrange(0int, 0int + 2) =~= le16(v.section));
                    assert(d.subrange(pos + 0int, pos + 0int + 2) =~= e.subrange(0int, 0int + 2));
                    lemma_le16_injective(section, v.section);
                    assert(e.subrange(0int + 2, 0int + 2 + 4) =~= le32(v.offset));
                    assert(d.subrange(pos + 0int + 2, pos + 0int + 2 + 4) =~= e.subrange(0int + 2, 0int + 2 + 4));
                    lemma_le32_injective(offset, v.offset);
                    assert(e.subrange(0int + 2 + 4, 0int + 2 + 4 + (1 + v.name_size as int)) =~= counted(v.name_size, v.name@));
                    assert(d.subrange(pos + 0int + 2 + 4, pos + 0int + 2 + 4 + (1 + v.name_size as int)) =~= e.subrange(0int + 2 + 4, 0int + 2 + 4 + (1 + v.name_size as int)));
                    assert(d.subrange(p2 as int, p2 + 1 + name_size)[0] == name_size);
                    assert(d.subrange(pos + 0int + 2 + 4, pos + 0int + 2 + 4 + (1 + v.name_size as int))[0] == v.name_size);
                    assert(p3 == p2 + 1 + name_size);
                    assert(name@ =~= v.name@) by {
                        assert(d.subrange(p2 + 1, p2 + 1 + name_size) =~= d.subrange(p2 as int, p3 as int).subrange(1, 1 + name_size));
                        assert(counted(name_size, name@).subrange(1, 1 + name_size) =~= name@);
                        assert(d.subrange(pos + 0int + 2 + 4 + 1, pos + 0int + 2 + 4 + (1 + v.name_size as int)) =~= d.subrange(pos + 0int + 2 + 4, pos + 0int + 2 + 4 + (1 + v.name_size as int)).subrange(1, 0int + 2 + 4 + (1 + v.name_size as int) - (0int + 2 + 4)));
                        assert(counted(v.name_size, v.name@).subrange(1, 0int + 2 + 4 + (1 + v.name_size as int) - (0int + 2 + 4)) =~= v.name@);
                    }
                    assert(v0.encoding() =~= v.encoding());
                }
        }
        Ok((v0, end))
    }

    /// Appends this record, without its section tag.
    pub fn write(&self, out: &mut Vec<u8>)
        ensures
            final(out)@ == old(out)@ + self.encoding(),
    {
        write_u16(out, self.section);
        write_u32(out, self.offset);
        write_counted(out, self.name_size, &self.name);
        assert(out@ =~= old(out)@ + self.encoding());
    }

    /// The `name` bytes as text, each invalid sequence replaced by U+FFFD.
    pub fn name(&self) -> (r: String)
        ensures
            r@ == lossy_text(self.name@),
            valid_utf8(self.name@) ==> r@ == decode_utf8(self.name@),
    {
        text_of(&self.name)
    }
}

/// A group of sections.
#[derive(Debug, Clone, PartialEq)]
pub struct GroupSymbol {
    pub number: u16,
    pub sym_type: u8,
    pub name_size: u8,
    pub name: Vec<u8>,
}

impl GroupSymbol {
    /// The bytes that store this record, after its section tag.
    pub open spec fn encoding(self) -> Seq<u8> {
        le16(self.number)
            + seq![self.sym_type]
            + counted(self.name_size, self.name@)
    }

    /// Every length field counts the bytes that follow it, and an expression
    /// nests no deeper than the reader accepts.
    pub open spec fn well_formed(self) -> bool {
        self.name@.len() == self.name_size
    }

    /// `data` holds the encoding of this record from `pos` on.
    pub open spec fn encodes_at(self, data: Seq<u8>, pos: int) -> bool {
        holds_at(data, pos, pos + self.encoding().len(), self.encoding())
    }

    /// Reads this record at `pos`, just after its section tag. It succeeds
    /// exactly when a well-formed record is stored there.
    pub fn read(data: &[u8], pos: usize) -> (r: Result<(GroupSymbol, usize), DecodeError>)
        ensures
            r matches Ok((v, end)) ==> holds_at(data@, pos as int, end as int, v.encoding())
                && v.well_formed(),
            forall|v: GroupSymbol|
                #[trigger] v.encodes_at(data@, pos as int) && v.well_formed() ==> (r matches Ok(
                    (x, end),
                ) && end == pos + v.encoding().len() && x.encoding() == v.encoding()),
            r matches Err(e) ==> e is Truncated,
    {
        let ghost d = data@;
        let (number, p1) = match read_u16(data, pos) {
            Ok(x) => x,
            Err(err) => {
                proof {
                assert forall|v: GroupSymbol| #[trigger] v.encodes_at(d, pos as int) && v.well_formed() implies false by {
                    let e = v.encoding();
                    assert(d.subrange(pos as int, pos + e.len()) == e);
                    assert(e.subrange(0int, 0int + 2) =~= le16(v.number));
                    assert(d.subrange(pos + 0int, pos + 0int + 2) =~= e.subrange(0int, 0int + 2));
                }
                }
                return Err(err);
            },
        };
        let (sym_type, p2) = match read_u8(data, p1) {
            Ok(x) => x,
            Err(err) => {
                proof {
                assert forall|v: GroupSymbol| #[trigger] v.encodes_at(d, pos as int) && v.well_formed() implies false by {
                    let e = v.encoding();
                    assert(d.subrange(pos as int, pos + e.len()) == e);
                    assert(e.subrange(0int, 0int + 2) =~= le16(v.number));
                    assert(d.subrange(pos + 0int, pos + 0int + 2) =~= e.subrange(0int, 0int + 2));
                    lemma_le16_injective(number, v.number);
                    assert(e.subrange(0int + 2, 0int + 2 + 1) =~= seq![v.sym_type]);
                    assert(d.subrange(pos + 0int + 2, pos + 0int + 2 + 1) =~= e.subrange(0int + 2, 0int + 2 + 1));
                }
                }
                return Err(err);
            },
        };
        let (name_size, name, p3) = match read_counted(data, p2) {
            Ok(x) => x,
            Err(err) => {
                proof {
                assert forall|v: GroupSymbol| #[trigger] v.encodes_at(d, pos as int) && v.well_formed() implies false by {
                    let e = v.encoding();
                    assert(d.subrange(pos as int, pos + e.len()) == e);
                    assert(e.subrange(0int, 0int + 2) =~= le16(v.number));
                    assert(d.subrange(pos + 0int, pos + 0int + 2) =~= e.subrange(0int, 0int + 2));
                    lemma_le16_injective(number, v.number);
                    assert(e.subrange(0int + 2, 0int + 2 + 1) =~= seq![v.sym_type]);
                    assert(d.subrange(pos + 0int + 2, pos + 0int + 2 + 1) =~= e.subrange(0int + 2, 0int + 2 + 1));
                    assert(d.subrange(p1 as int, p1 + 1)[0] == sym_type);
                    assert(d.subrange(pos + 0int + 2, pos + 0int + 2 + 1)[0] == v.sym_type);
                    assert(e.subrange(0int + 2 + 1, 0int + 2 + 1 + (1 + v.name_size as int)) =~= counted(v.name_size, v.name@));
                    assert(d.subrange(pos + 0int + 2 + 1, pos + 0int + 2 + 1 + (1 + v.name_size as int)) =~= e.subrange(0int + 2 + 1, 0int + 2 + 1 + (1 + v.name_size as int)));
                    assert(d.subrange(pos + 0int + 2 + 1, pos + 0int + 2 + 1 + (1 + v.name_size as int))[0] == v.name_size);
                }
                }
                return Err(err);
            },
        };
        assert(d.subrange(p2 as int, p3 as int)[0] == name_size);
        assert(p3 == p2 + 1 + name_size);
        let v0 = GroupSymbol { number, sym_type, name_size, name };
        assert(d.subrange(pos as int, p3 as int) =~= d.subrange(pos as int, p1 as int) + d.subrange(p1 as int, p2 as int) + d.subrange(p2 as int, p3 as int));
        assert(d.subrange(pos as int, p3 as int) =~= v0.encoding());
        let end = p3;
        proof {
                assert forall|v: GroupSymbol| #[trigger] v.encodes_at(d, pos as int) && v.well_formed() implies v0.encoding() == v.encoding() && end == pos + v.encoding().len() by {
                    let e = v.encoding();
                    assert(d.subrange(pos as int, pos + e.len()) == e);
                    assert(e.subrange(0int, 0int + 2) =~= le16(v.number));
                    assert(d.subrange(pos + 0int, pos + 0int + 2) =~= e.subrange(0int, 0int + 2));
                    lemma_le16_injective(number, v.number);
                    assert(e.subrange(0int + 2, 0int + 2 + 1) =~= seq![v.sym_type]);
                    assert(d.subrange(pos + 0int + 2, pos + 0int + 2 + 1) =~= e.subrange(0int + 2, 0int + 2 + 1));
                    assert(d.subrange(p1 as int, p1 + 1)[0] == sym_type);
                    assert(d.subrange(pos + 0int + 2, pos + 0int + 2 + 1)[0] == v.sym_type);
                    assert(e.subrange(0int + 2 + 1, 0int + 2 + 1 + (1 + v.name_size as int)) =~= counted(v.name_size, v.name@));
                    assert(d.subrange(pos + 0int + 2 + 1, pos + 0int + 2 + 1 + (1 + v.name_size as int)) =~= e.subrange(0int + 2 + 1, 0int + 2 + 1 + (1 + v.name_size as int)));
                    assert(d.subrange(p2 as int, p2 + 1 + name_size)[0] == name_size);
                    assert(d.subrange(pos + 0int + 2 + 1, pos + 0int + 2 + 1 + (1 + v.name_size as int))[0] == v.name_size);
                    assert(p3 == p2 + 1 + name_size);
                    assert(name@ =~= v.name@) by {
                        assert(d.subrange(p2 + 1, p2 + 1 + name_size) =~= d.subrange(p2 as int, p3 as int).subrange(1, 1 + name_size));
                        assert(counted(name_size, name@).subrange(1, 1 + name_size) =~= name@);
                        assert(d.subrange(pos + 0int + 2 + 1 + 1, pos + 0int + 2 + 1 + (1 + v.name_size as int)) =~= d.subrange(pos + 0int + 2 + 1, pos + 0int + 2 + 1 + (1 + v.name_size as int)).subrange(1, 0int + 2 + 1 + (1 + v.name_size as int) - (0int + 2 + 1)));
                        assert(counted(v.name_size, v.name@).subrange(1, 0int + 2 + 1 + (1 + v.name_size as int) - (0int + 2 + 1)) =~= v.name@);
                    }
                    assert(v0.encoding() =~= v.encoding());
                }
        }
        Ok((v0, end))
    }

    /// Appends this record, without its section tag.
    pub fn write(&self, out: &mut Vec<u8>)
        ensures
            final(out)@ == old(out)@ + self.encoding(),
    {
        write_u16(out, self.number);
        write_u8(out, self.sym_type);
        write_counted(out, self.name_size, &self.name);
        assert(out@ =~= old(out)@ + self.encoding());
    }

    /// The `name` bytes as text, each invalid sequence replaced by U+FFFD.
    pub fn name(&self) -> (r: String)
        ensures
            r@ == lossy_text(self.name@),
            valid_utf8(self.name@) ==> r@ == decode_utf8(self.name@),
    {
        text_of(&self.name)
    }
}

/// A symbol that this module defines for others.
#[derive(Debug, Clone, PartialEq)]
pub struct XDEF {
    pub number: u16,
    pub section: u16,
    pub offset: u32,
    pub symbol_name_size: u8,
    pub symbol_name: Vec<u8>,
}

impl XDEF {
    /// The bytes that store this record, after its section tag.
    pub open spec fn encoding(self) -> Seq<u8> {
        le16(self.number)
            + le16(self.section)
            + le32(self.offset)
            + counted(self.symbol_name_size, self.symbol_name@)
    }

    /// Every length field counts the bytes that follow it, and an expression
    /// nests no deeper than the reader accepts.
    pub open spec fn well_formed(self) -> bool {
        self.symbol_name@.len() == self.symbol_name_size
    }

    /// `data` holds the encoding of this record from `pos` on.
    pub open spec fn encodes_at(self, data: Seq<u8>, pos: int) -> bool {
        holds_at(data, pos, pos + self.encoding().len(), self.encoding())
    }

    /// Reads this record at `pos`, just after its section tag. It succeeds
    /// exactly when a well-formed record is stored there.
    pub fn read(data: &[u8], pos: usize) -> (r: Result<(XDEF, usize), DecodeError>)
        ensures
            r matches Ok((v, end)) ==> holds_at(data@, pos as int, end as int, v.encoding())
                && v.well_formed(),
            forall|v: XDEF|
                #[trigger] v.encodes_at(data@, pos as int) && v.well_formed() ==> (r matches Ok(
                    (x, end),
                ) && end == pos + v.encoding().len() && x.encoding() == v.encoding()),
            r matches Err(e) ==> e is Truncated,
    {
        let ghost d = data@;
        let (number, p1) = match read_u16(data, pos) {
            Ok(x) => x,
            Err(err) => {
                proof {
                assert forall|v: XDEF| #[trigger] v.encodes_at(d, pos as int) && v.well_formed() implies false by {
                    let e = v.encoding();
                    assert(d.subrange(pos as int, pos + e.len()) == e);
                    assert(e.subrange(0int, 0int + 2) =~= le16(v.number));
                    assert(d.subrange(pos + 0int, pos + 0int + 2) =~= e.subrange(0int, 0int + 2));
                }
                }
                return Err(err);
            },
        };
        let (section, p2) = match read_u16(data, p1) {
            Ok(x) => x,
            Err(err) => {
                proof {
                assert forall|v: XDEF| #[trigger] v.encodes_at(d, pos as int) && v.well_formed() implies false by {
                    let e = v.encoding();
                    assert(d.subrange(pos as int, pos + e.len()) == e);
                    assert(e.subrange(0int, 0int + 2) =~= le16(v.number));
                    assert(d.subrange(pos + 0int, pos + 0int + 2) =~= e.subrange(0int, 0int + 2));
                    lemma_le16_injective(number, v.number);
                    assert(e.subrange(0int + 2, 0int + 2 + 2) =~= le16(v.section));
                    assert(d.subrange(pos + 0int + 2, pos + 0int + 2 + 2) =~= e.subrange(0int + 2, 0int + 2 + 2));
                }
                }
                return Err(err);
            },
        };
        let (offset, p3) = match read_u32(data, p2) {
            Ok(x) => x,
            Err(err) => {
                proof {
                assert forall|v: XDEF| #[trigger] v.encodes_at(d, pos as int) && v.well_formed() implies false by {
                    let e = v.encoding();
                    assert(d.subrange(pos as int, pos + e.len()) == e);
                    assert(e.subrange(0int, 0int + 2) =~= le16(v.number));
                    assert(d.subrange(pos + 0int, pos + 0int + 2) =~= e.subrange(0int, 0int + 2));
                    lemma_le16_injective(number, v.number);
                    assert(e.subrange(0int + 2, 0int + 2 + 2) =~= le16(v.section));
                    assert(d.subrange(pos + 0int + 2, pos + 0int + 2 + 2) =~= e.subrange(0int + 2, 0int + 2 + 2));
                    lemma_le16_injective(section, v.section);
                    assert(e.subrange(0int + 2 + 2, 0int + 2 + 2 + 4) =~= le32(v.offset));
                    assert(d.subrange(pos + 0int + 2 + 2, pos + 0int + 2 + 2 + 4) =~= e.subrange(0int + 2 + 2, 0int + 2 + 2 + 4));
                }
                }
                return Err(err);
            },
        };
        let (symbol_name_size, symbol_name, p4) = match read_counted(data, p3) {
            Ok(x) => x,
            Err(err) => {
                proof {
                assert forall|v: XDEF| #[trigger] v.encodes_at(d, pos as int) && v.well_formed() implies false by {
                    let e = v.encoding();
                    assert(d.subrange(pos as int, pos + e.len()) == e);
                    assert(e.subrange(0int, 0int + 2) =~= le16(v.number));
                    assert(d.subrange(pos + 0int, pos + 0int + 2) =~= e.subrange(0int, 0int + 2));
                    lemma_le16_injective(number, v.number);
                    assert(e.subrange(0int + 2, 0int + 2 + 2) =~= le16(v.section));
                    assert(d.subrange(pos + 0int + 2, pos + 0int + 2 + 2) =~= e.subrange(0int + 2, 0int + 2 + 2));
                    lemma_le16_injective(section, v.section);
                    assert(e.subrange(0int + 2 + 2, 0int + 2 + 2 + 4) =~= le32(v.offset));
                    assert(d.subrange(pos + 0int + 2 + 2, pos + 0int + 2 + 2 + 4) =~= e.subrange(0int + 2 + 2, 0int + 2 + 2 + 4));
                    lemma_le32_injective(offset, v.offset);
                    assert(e.subrange(0int + 2 + 2 + 4, 0int + 2 + 2 + 4 + (1 + v.symbol_name_size as int)) =~= counted(v.symbol_name_size, v.symbol_name@));
                    assert(d.subrange(pos + 0int + 2 + 2 + 4, pos + 0int + 2 + 2 + 4 + (1 + v.symbol_name_size as int)) =~= e.subrange(0int + 2 + 2 + 4, 0int + 2 + 2 + 4 + (1 + v.symbol_name_size as int)));
                    assert(d.subrange(pos + 0int + 2 + 2 + 4, pos + 0int + 2 + 2 + 4 + (1 + v.symbol_name_size as int))[0] == v.symbol_name_size);
                }
                }
                return Err(err);
            },
        };
        assert(d.subrange(p3 as int, p4 as int)[0] == symbol_name_size);
        assert(p4 == p3 + 1 + symbol_name_size);
        let v0 = XDEF { number, section, offset, symbol_name_size, symbol_name };
        assert(d.subrange(pos as int, p4 as int) =~= d.subrange(pos as int, p1 as int) + d.subrange(p1 as int, p2 as int) + d.subrange(p2 as int, p3 as int) + d.subrange(p3 as int, p4 as int));
        assert(d.subrange(pos as int, p4 as int) =~= v0.encoding());
        let end = p4;
        proof {
                assert forall|v: XDEF| #[trigger] v.encodes_at(d, pos as int) && v.well_formed() implies v0.encoding() == v.encoding() && end == pos + v.encoding().len() by {
                    let e = v.encoding();
                    assert(d.subrange(pos as int, pos + e.len()) == e);
                    assert(e.subrange(0int, 0int + 2) =~= le16(v.number));
                    assert(d.subrange(pos + 0int, pos + 0int + 2) =~= e.subrange(0int, 0int + 2));
                    lemma_le16_injective(number, v.number);
                    assert(e.subrange(0int + 2, 0int + 2 + 2) =~= le16(v.section));
                    assert(d.subrange(pos + 0int + 2, pos + 0int + 2 + 2) =~= e.subrange(0int + 2, 0int + 2 + 2));
                    lemma_le16_injective(section, v.section);
                    assert(e.subrange(0int + 2 + 2, 0int + 2 + 2 + 4) =~= le32(v.offset));
                    assert(d.subrange(pos + 0int + 2 + 2, pos + 0int + 2 + 2 + 4) =~= e.subrange(0int + 2 + 2, 0int + 2 + 2 + 4));
                    lemma_le32_injective(offset, v.offset);
                    assert(e.subrange(0int + 2 + 2 + 4, 0int + 2 + 2 + 4 + (1 + v.symbol_name_size as int)) =~= counted(v.symbol_name_size, v.symbol_name@));
                    assert(d.subrange(pos + 0int + 2 + 2 + 4, pos + 0int + 2 + 2 + 4 + (1 + v.symbol_name_size as int)) =~= e.subrange(0int + 2 + 2 + 4, 0int + 2 + 2 + 4 + (1 + v.symbol_name_size as int)));
                    assert(d.subrange(p3 as int, p3 + 1 + symbol_name_size)[0] == symbol_name_size);
                    assert(d.subrange(pos + 0int + 2 + 2 + 4, pos + 0int + 2 + 2 + 4 + (1 + v.symbol_name_size as int))[0] == v.symbol_name_size);
                    assert(p4 == p3 + 1 + symbol_name_size);
                    assert(symbol_name@ =~= v.symbol_name@) by {
                        assert(d.subrange(p3 + 1, p3 + 1 + symbol_name_size) =~= d.subrange(p3 as int, p4 as int).subrange(1, 1 + symbol_name_size));
                        assert(counted(symbol_name_size, symbol_name@).subrange(1, 1 + symbol_name_size) =~= symbol_name@);
                        assert(d.subrange(pos + 0int + 2 + 2 + 4 + 1, pos + 0int + 2 + 2 + 4 + (1 + v.symbol_name_size as int)) =~= d.subrange(pos + 0int + 2 + 2 + 4, pos + 0int + 2 + 2 + 4 + (1 + v.symbol_name_size as int)).subrange(1, 0int + 2 + 2 + 4 + (1 + v.symbol_name_size as int) - (0int + 2 + 2 + 4)));
                        assert(counted(v.symbol_name_size, v.symbol_name@).subrange(1, 0int + 2 + 2 + 4 + (1 + v.symbol_name_size as int) - (0int + 2 + 2 + 4)) =~= v.symbol_name@);
                    }
                    assert(v0.encoding() =~= v.encoding());
                }
        }
        Ok((v0, end))
    }

    /// Appends this record, without its section tag.
    pub fn write(&self, out: &mut Vec<u8>)
        ensures
            final(out)@ == old(out)@ + self.encoding(),
    {
        write_u16(out, self.number);
        write_u16(out, self.section);
        write_u32(out, self.offset);
        write_counted(out, self.symbol_name_size, &self.symbol_name);
        assert(out@ =~= old(out)@ + self.encoding());
    }

    /// The `symbol_name` bytes as text, each invalid sequence replaced by U+FFFD.
    pub fn symbol_name(&self) -> (r: String)
        ensures
            r@ == lossy_text(self.symbol_name@),
            valid_utf8(self.symbol_name@) ==> r@ == decode_utf8(self.symbol_name@),
    {
        text_of(&self.symbol_name)
    }
}

/// A symbol that this module needs from another.
#[derive(Debug, Clone, PartialEq)]
pub struct XREF {
    pub number: u16,
    pub symbol_name_size: u8,
    pub symbol_name: Vec<u8>,
}

impl XREF {
    /// The bytes that store this record, after its section tag.
    pub open spec fn encoding(self) -> Seq<u8> {
        le16(self.number)
            + counted(self.symbol_name_size, self.symbol_name@)
    }

    /// Every length field counts the bytes that follow it, and an expression
    /// nests no deeper than the reader accepts.
    pub open spec fn well_formed(self) -> bool {
        self.symbol_name@.len() == self.symbol_name_size
    }

    /// `data` holds the encoding of this record from `pos` on.
    pub open spec fn encodes_at(self, data: Seq<u8>, pos: int) -> bool {
        holds_at(data, pos, pos + self.encoding().len(), self.encoding())
    }

    /// Reads this record at `pos`, just after its section tag. It succeeds
    /// exactly when a well-formed record is stored there.
    pub fn read(data: &[u8], pos: usize) -> (r: Result<(XREF, usize), DecodeError>)
        ensures
            r matches Ok((v, end)) ==> holds_at(data@, pos as int, end as int, v.encoding())
                && v.well_formed(),
            forall|v: XREF|
                #[trigger] v.encodes_at(data@, pos as int) && v.well_formed() ==> (r matches Ok(
                    (x, end),
                ) && end == pos + v.encoding().len() && x.encoding() == v.encoding()),
            r matches Err(e) ==> e is Truncated,
    {
        let ghost d = data@;
        let (number, p1) = match read_u16(data, pos) {
            Ok(x) => x,
            Err(err) => {
                proof {
                assert forall|v: XREF| #[trigger] v.encodes_at(d, pos as int) && v.well_formed() implies false by {
                    let e = v.encoding();
                    assert(d.subrange(pos as int, pos + e.len()) == e);
                    assert(e.subrange(0int, 0int + 2) =~= le16(v.number));
                    assert(d.subrange(pos + 0int, pos + 0int + 2) =~= e.subrange(0int, 0int + 2));
                }
                }
                return Err(err);
            },
        };
        let (symbol_name_size, symbol_name, p2) = match read_counted(data, p1) {
            Ok(x) => x,
            Err(err) => {
                proof {
                assert forall|v: XREF| #[trigger] v.encodes_at(d, pos as int) && v.well_formed() implies false by {
                    let e = v.encoding();
                    assert(d.subrange(pos as int, pos + e.len()) == e);
                    assert(e.subrange(0int, 0int + 2) =~= le16(v.number));
                    assert(d.subrange(pos + 0int, pos + 0int + 2) =~= e.subrange(0int, 0int + 2));
                    lemma_le16_injective(number, v.number);
                    assert(e.subrange(0int + 2, 0int + 2 + (1 + v.symbol_name_size as int)) =~= counted(v.symbol_name_size, v.symbol_name@));
                    assert(d.subrange(pos + 0int + 2, pos + 0int + 2 + (1 + v.symbol_name_size as int)) =~= e.subrange(0int + 2, 0int + 2 + (1 + v.symbol_name_size as int)));
                    assert(d.subrange(pos + 0int + 2, pos + 0int + 2 + (1 + v.symbol_name_size as int))[0] == v.symbol_name_size);
                }
                }
                return Err(err);
            },
        };
        assert(d.subrange(p1 as int, p2 as int)[0] == symbol_name_size);
        assert(p2 == p1 + 1 + symbol_name_size);
        let v0 = XREF { number, symbol_name_size, symbol_name };
        assert(d.subrange(pos as int, p2 as int) =~= d.subrange(pos as int, p1 as int) + d.subrange(p1 as int, p2 as int));
        assert(d.subrange(pos as int, p2 as int) =~= v0.encoding());
        let end = p2;
        proof {
                assert forall|v: XREF| #[trigger] v.encodes_at(d, pos as int) && v.well_formed() implies v0.encoding() == v.encoding() && end == pos + v.encoding().len() by {
                    let e = v.encoding();
                    assert(d.subrange(pos as int, pos + e.len()) == e);
                    assert(e.subrange(0int, 0int + 2) =~= le16(v.number));
                    assert(d.subrange(pos + 0int, pos + 0int + 2) =~= e.subrange(0int, 0int + 2));
                    lemma_le16_injective(number, v.number);
                    assert(e.subrange(0int + 2, 0int + 2 + (1 + v.symbol_name_size as int)) =~= counted(v.symbol_name_size, v.symbol_name@));
                    assert(d.subrange(pos + 0int + 2, pos + 0int + 2 + (1 + v.symbol_name_size as int)) =~= e.subrange(0int + 2, 0int + 2 + (1 + v.symbol_name_size as int)));
                    assert(d.subrange(p1 as int, p1 + 1 + symbol_name_size)[0] == symbol_name_size);
                    assert(d.subrange(pos + 0int + 2, pos + 0int + 2 + (1 + v.symbol_name_size as int))[0] == v.symbol_name_size);
                    assert(p2 == p1 + 1 + symbol_name_size);
                    assert(symbol_name@ =~= v.symbol_name@) by {
                        assert(d.subrange(p1 + 1, p1 + 1 + symbol_name_size) =~= d.subrange(p1 as int, p2 as int).subrange(1, 1 + symbol_name_size));
                        assert(counted(symbol_name_size, symbol_name@).subrange(1, 1 + symbol_name_size) =~= symbol_name@);
                        assert(d.subrange(pos + 0int + 2 + 1, pos + 0int + 2 + (1 + v.symbol_name_size as int)) =~= d.subrange(pos + 0int + 2, pos + 0int + 2 + (1 + v.symbol_name_size as int)).subrange(1, 0int + 2 + (1 + v.symbol_name_size as int) - (0int + 2)));
                        assert(counted(v.symbol_name_size, v.symbol_name@).subrange(1, 0int + 2 + (1 + v.symbol_name_size as int) - (0int + 2)) =~= v.symbol_name@);
                    }
                    assert(v0.encoding() =~= v.encoding());
                }
        }
        Ok((v0, end))
    }

    /// Appends this record, without its section tag.
    pub fn write(&self, out: &mut Vec<u8>)
        ensures
            final(out)@ == old(out)@ + self.encoding(),
    {
        write_u16(out, self.number);
        write_counted(out, self.symbol_name_size, &self.symbol_name);
        assert(out@ =~= old(out)@ + self.encoding());
    }

    /// The `symbol_name` bytes as text, each invalid sequence replaced by U+FFFD.
    pub fn symbol_name(&self) -> (r: String)
        ensures
            r@ == lossy_text(self.symbol_name@),
            valid_utf8(self.symbol_name@) ==> r@ == decode_utf8(self.symbol_name@),
    {
        text_of(&self.symbol_name)
    }
}

/// A source file name used by the debugging records.
#[derive(Debug, Clone, PartialEq)]
pub struct Filename {
    pub number: u16,
    pub name_size: u8,
    pub name: Vec<u8>,
}

impl Filename {
    /// The bytes that store this record, after its section tag.
    pub open spec fn encoding(self) -> Seq<u8> {
        le16(self.number)
            + counted(self.name_size, self.name@)
    }

    /// Every length field counts the bytes that follow it, and an expression
    /// nests no deeper than the reader accepts.
    pub open spec fn well_formed(self) -> bool {
        self.name@.len() == self.name_size
    }

    /// `data` holds the encoding of this record from `pos` on.
    pub open spec fn encodes_at(self, data: Seq<u8>, pos: int) -> bool {
        holds_at(data, pos, pos + self.encoding().len(), self.encoding())
    }

    /// Reads this record at `pos`, just after its section tag. It succeeds
    /// exactly when a well-formed record is stored there.
    pub fn read(data: &[u8], pos: usize) -> (r: Result<(Filename, usize), DecodeError>)
        ensures
            r matches Ok((v, end)) ==> holds_at(data@, pos as int, end as int, v.encoding())
                && v.well_formed(),
            forall|v: Filename|
                #[trigger] v.encodes_at(data@, pos as int) && v.well_formed() ==> (r matches Ok(
                    (x, end),
                ) && end == pos + v.encoding().len() && x.encoding() == v.encoding()),
            r matches Err(e) ==> e is Truncated,
    {
        let ghost d = data@;
        let (number, p1) = match read_u16(data, pos) {
            Ok(x) => x,
            Err(err) => {
                proof {
                assert forall|v: Filename| #[trigger] v.encodes_at(d, pos as int) && v.well_formed() implies false by {
                    let e = v.encoding();
                    assert(d.subrange(pos as int, pos + e.len()) == e);
                    assert(e.subrange(0int, 0int + 2) =~= le16(v.number));
                    assert(d.subrange(pos + 0int, pos + 0int + 2) =~= e.subrange(0int, 0int + 2));
                }
                }
                return Err(err);
            },
        };
        let (name_size, name, p2) = match read_counted(data, p1) {
            Ok(x) => x,
            Err(err) => {
                proof {
                assert forall|v: Filename| #[trigger] v.encodes_at(d, pos as int) && v.well_formed() implies false by {
                    let e = v.encoding();
                    assert(d.subrange(pos as int, pos + e.len()) == e);
                    assert(e.subrange(0int, 0int + 2) =~= le16(v.number));
                    assert(d.subrange(pos + 0int, pos + 0int + 2) =~= e.subrange(0int, 0int + 2));
                    lemma_le16_injective(number, v.number);
                    assert(e.subrange(0int + 2, 0int + 2 + (1 + v.name_size as int)) =~= counted(v.name_size, v.name@));
                    assert(d.subrange(pos + 0int + 2, pos + 0int + 2 + (1 + v.name_size as int)) =~= e.subrange(0int + 2, 0int + 2 + (1 + v.name_size as int)));
                    assert(d.subrange(pos + 0int + 2, pos + 0int + 2 + (1 + v.name_size as int))[0] == v.name_size);
                }
                }
                return Err(err);
            },
        };
        assert(d.subrange(p1 as int, p2 as int)[0] == name_size);
        assert(p2 == p1 + 1 + name_size);
        let v0 = Filename { number, name_size, name };
        assert(d.subrange(pos as int, p2 as int) =~= d.subrange(pos as int, p1 as int) + d.subrange(p1 as int, p2 as int));
        assert(d.subrange(pos as int, p2 as int) =~= v0.encoding());
        let end = p2;
        proof {
                assert forall|v: Filename| #[trigger] v.encodes_at(d, pos as int) && v.well_formed() implies v0.encoding() == v.encoding() && end == pos + v.encoding().len() by {
                    let e = v.encoding();
                    assert(d.subrange(pos as int, pos + e.len()) == e);
                    assert(e.subrange(0int, 0int + 2) =~= le16(v.number));
                    assert(d.subrange(pos + 0int, pos + 0int + 2) =~= e.subrange(0int, 0int + 2));
                    lemma_le16_injective(number, v.number);
                    assert(e.subrange(0int + 2, 0int + 2 + (1 + v.name_size as int)) =~= counted(v.name_size, v.name@));
                    assert(d.subrange(pos + 0int + 2, pos + 0int + 2 + (1 + v.name_size as int)) =~= e.subrange(0int + 2, 0int + 2 + (1 + v.name_size as int)));
                    assert(d.subrange(p1 as int, p1 + 1 + name_size)[0] == name_size);
                    assert(d.subrange(pos + 0int + 2, pos + 0int + 2 + (1 + v.name_size as int))[0] == v.name_size);
                    assert(p2 == p1 + 1 + name_size);
                    assert(name@ =~= v.name@) by {
                        assert(d.subrange(p1 + 1, p1 + 1 + name_size) =~= d.subrange(p1 as int, p2 as int).subrange(1, 1 + name_size));
                        assert(counted(name_size, name@).subrange(1, 1 + name_size) =~= name@);
                        assert(d.subrange(pos + 0int + 2 + 1, pos + 0int + 2 + (1 + v.name_size as int)) =~= d.subrange(pos + 0int + 2, pos + 0int + 2 + (1 + v.name_size as int)).subrange(1, 0int + 2 + (1 + v.name_size as int) - (0int + 2)));
                        assert(counted(v.name_size, v.name@).subrange(1, 0int + 2 + (1 + v.name_size as int) - (0int + 2)) =~= v.name@);
                    }
                    assert(v0.encoding() =~= v.encoding());
                }
        }
        Ok((v0, end))
    }

    /// Appends this record, without its section tag.
    pub fn write(&self, out: &mut Vec<u8>)
        ensures
            final(out)@ == old(out)@ + self.encoding(),
    {
        write_u16(out, self.number);
        write_counted(out, self.name_size, &self.name);
        assert(out@ =~= old(out)@ + self.encoding());
    }

    /// The `name` bytes as text, each invalid sequence replaced by U+FFFD.
    pub fn name(&self) -> (r: String)
        ensures
            r@ == lossy_text(self.name@),
            valid_utf8(self.name@) ==> r@ == decode_utf8(self.name@),
    {
        text_of(&self.name)
    }
}

/// Sets MX information at an offset.
#[derive(Debug, Clone, PartialEq)]
pub struct SetMXInfo {
    pub offset: u16,
    pub value: u8,
}

impl SetMXInfo {
    /// The bytes that store this record, after its section tag.
    pub open spec fn encoding(self) -> Seq<u8> {
        le16(self.offset)
            + seq![self.value]
    }

    /// Every length field counts the bytes that follow it, and an expression
    /// nests no deeper than the reader accepts.
    pub open spec fn well_formed(self) -> bool {
        true
    }

    /// `data` holds the encoding of this record from `pos` on.
    pub open spec fn encodes_at(self, data: Seq<u8>, pos: int) -> bool {
        holds_at(data, pos, pos + self.encoding().len(), self.encoding())
    }

    /// Reads this record at `pos`, just after its section tag. It succeeds
    /// exactly when a well-formed record is stored there.
    pub fn read(data: &[u8], pos: usize) -> (r: Result<(SetMXInfo, usize), DecodeError>)
        ensures
            r matches Ok((v, end)) ==> holds_at(data@, pos as int, end as int, v.encoding())
                && v.well_formed(),
            forall|v: SetMXInfo|
                #[trigger] v.encodes_at(data@, pos as int) && v.well_formed() ==> (r matches Ok(
                    (x, end),
                ) && end == pos + v.encoding().len() && x.encoding() == v.encoding()),
            r matches Err(e) ==> e is Truncated,
    {
        let ghost d = data@;
        let (offset, p1) = match read_u16(data, pos) {
            Ok(x) => x,
            Err(err) => {
                proof {
                assert forall|v: SetMXInfo| #[trigger] v.encodes_at(d, pos as int) && v.well_formed() implies false by {
                    let e = v.encoding();
                    assert(d.subrange(pos as int, pos + e.len()) == e);
                    assert(e.subrange(0int, 0int + 2) =~= le16(v.offset));
                    assert(d.subrange(pos + 0int, pos + 0int + 2) =~= e.subrange(0int, 0int + 2));
                }
                }
                return Err(err);
            },
        };
        let (value, p2) = match read_u8(data, p1) {
            Ok(x) => x,
            Err(err) => {
                proof {
                assert forall|v: SetMXInfo| #[trigger] v.encodes_at(d, pos as int) && v.well_formed() implies false by {
                    let e = v.encoding();
                    assert(d.subrange(pos as int, pos + e.len()) == e);
                    assert(e.subrange(0int, 0int + 2) =~= le16(v.offset));
                    assert(d.subrange(pos + 0int, pos + 0int + 2) =~= e.subrange(0int, 0int + 2));
                    lemma_le16_injective(offset, v.offset);
                    assert(e.subrange(0int + 2, 0int + 2 + 1) =~= seq![v.value]);
                    assert(d.subrange(pos + 0int + 2, pos + 0int + 2 + 1) =~= e.subrange(0int + 2, 0int + 2 + 1));
                }
                }
                return Err(err);
            },
        };
        let v0 = SetMXInfo { offset, value };
        assert(d.subrange(pos as int, p2 as int) =~= d.subrange(pos as int, p1 as int) + d.subrange(p1 as int, p2 as int));
        assert(d.subrange(pos as int, p2 as int) =~= v0.encoding());
        let end = p2;
        proof {
                assert forall|v: SetMXInfo| #[trigger] v.encodes_at(d, pos as int) && v.well_formed() implies v0.encoding() == v.encoding() && end == pos + v.encoding().len() by {
                    let e = v.encoding();
                    assert(d.subrange(pos as int, pos + e.len()) == e);
                    assert(e.subrange(0int, 0int + 2) =~= le16(v.offset));
                    assert(d.subrange(pos + 0int, pos + 0int + 2) =~= e.subrange(0int, 0int + 2));
                    lemma_le16_injective(offset, v.offset);
                    assert(e.subrange(0int + 2, 0int + 2 + 1) =~= seq![v.value]);
                    assert(d.subrange(pos + 0int + 2, pos + 0int + 2 + 1) =~= e.subrange(0int + 2, 0int + 2 + 1));
                    assert(d.subrange(p1 as int, p1 + 1)[0] == value);
                    assert(d.subrange(pos + 0int + 2, pos + 0int + 2 + 1)[0] == v.value);
                    assert(v0.encoding() =~= v.encoding());
                }
        }
        Ok((v0, end))
    }

    /// Appends this record, without its section tag.
    pub fn write(&self, out: &mut Vec<u8>)
        ensures
            final(out)@ == old(out)@ + self.encoding(),
    {
        write_u16(out, self.offset);
        write_u8(out, self.value);
        assert(out@ =~= old(out)@ + self.encoding());
    }
}

/// An uninitialized data symbol that this module defines for others.
#[derive(Debug, Clone, PartialEq)]
pub struct XBSS {
    pub number: u16,
    pub section: u16,
    pub size: u32,
    pub name_size: u8,
    pub name: Vec<u8>,
}

impl XBSS {
    /// The bytes that store this record, after its section tag.
    pub open spec fn encoding(self) -> Seq<u8> {
        le16(self.number)
            + le16(self.section)
            + le32(self.size)
            + counted(self.name_size, self.name@)
    }

    /// Every length field counts the bytes that follow it, and an expression
    /// nests no deeper than the reader accepts.
    pub open spec fn well_formed(self) -> bool {
        self.name@.len() == self.name_size
    }

    /// `data` holds the encoding of this record from `pos` on.
    pub open spec fn encodes_at(self, data: Seq<u8>, pos: int) -> bool {
        holds_at(data, pos, pos + self.encoding().len(), self.encoding())
    }

    /// Reads this record at `pos`, just after its section tag. It succeeds
    /// exactly when a well-formed record is stored there.
    pub fn read(data: &[u8], pos: usize) -> (r: Result<(XBSS, usize), DecodeError>)
        ensures
            r matches Ok((v, end)) ==> holds_at(data@, pos as int, end as int, v.encoding())
                && v.well_formed(),
            forall|v: XBSS|
                #[trigger] v.encodes_at(data@, pos as int) && v.well_formed() ==> (r matches Ok(
                    (x, end),
                ) && end == pos + v.encoding().len() && x.encoding() == v.encoding()),
            r matches Err(e) ==> e is Truncated,
    {
        let ghost d = data@;
        let (number, p1) = match read_u16(data, pos) {
            Ok(x) => x,
            Err(err) => {
                proof {
                assert forall|v: XBSS| #[trigger] v.encodes_at(d, pos as int) && v.well_formed() implies false by {
                    let e = v.encoding();
                    assert(d.subrange(pos as int, pos + e.len()) == e);
                    assert(e.subrange(0int, 0int + 2) =~= le16(v.number));
                    assert(d.subrange(pos + 0int, pos + 0int + 2) =~= e.subrange(0int, 0int + 2));
                }
                }
                return Err(err);
            },
        };
        let (section, p2) = match read_u16(data, p1) {
            Ok(x) => x,
            Err(err) => {
                proof {
                assert forall|v: XBSS| #[trigger] v.encodes_at(d, pos as int) && v.well_formed() implies false by {
                    let e = v.encoding();
                    assert(d.subrange(pos as int, pos + e.len()) == e);
                    assert(e.subrange(0int, 0int + 2) =~= le16(v.number));
                    assert(d.subrange(pos + 0int, pos + 0int + 2) =~= e.subrange(0int, 0int + 2));
                    lemma_le16_injective(number, v.number);
                    assert(e.subrange(0int + 2, 0int + 2 + 2) =~= le16(v.section));
                    assert(d.subrange(pos + 0int + 2, pos + 0int + 2 + 2) =~= e.subrange(0int + 2, 0int + 2 + 2));
                }
                }
                return Err(err);
            },
        };
        let (size, p3) = match read_u32(data, p2) {
            Ok(x) => x,
            Err(err) => {
                proof {
                assert forall|v: XBSS| #[trigger] v.encodes_at(d, pos as int) && v.well_formed() implies false by {
                    let e = v.encoding();
                    assert(d.subrange(pos as int, pos + e.len()) == e);
                    assert(e.subrange(0int, 0int + 2) =~= le16(v.number));
                    assert(d.subrange(pos + 0int, pos + 0int + 2) =~= e.subrange(0int, 0int + 2));
                    lemma_le16_injective(number, v.number);
                    assert(e.subrange(0int + 2, 0int + 2 + 2) =~= le16(v.section));
                    assert(d.subrange(pos + 0int + 2, pos + 0int + 2 + 2) =~= e.subrange(0int + 2, 0int + 2 + 2));
                    lemma_le16_injective(section, v.section);
                    assert(e.subrange(0int + 2 + 2, 0int + 2 + 2 + 4) =~= le32(v.size));
                    assert(d.subrange(pos + 0int + 2 + 2, pos + 0int + 2 + 2 + 4) =~= e.subrange(0int + 2 + 2, 0int + 2 + 2 + 4));
                }
                }
                return Err(err);
            },
        };
        let (name_size, name, p4) = match read_counted(data, p3) {
            Ok(x) => x,
            Err(err) => {
                proof {
                assert forall|v: XBSS| #[trigger] v.encodes_at(d, pos as int) && v.well_formed() implies false by {
                    let e = v.encoding();
                    assert(d.subrange(pos as int, pos + e.len()) == e);
                    assert(e.subrange(0int, 0int + 2) =~= le16(v.number));
                    assert(d.subrange(pos + 0int, pos + 0int + 2) =~= e.subrange(0int, 0int + 2));
                    lemma_le16_injective(number, v.number);
                    assert(e.subrange(0int + 2, 0int + 2 + 2) =~= le16(v.section));
                    assert(d.subrange(pos + 0int + 2, pos + 0int + 2 + 2) =~= e.subrange(0int + 2, 0int + 2 + 2));
                    lemma_le16_injective(section, v.section);
                    assert(e.subrange(0int + 2 + 2, 0int + 2 + 2 + 4) =~= le32(v.size));
                    assert(d.subrange(pos + 0int + 2 + 2, pos + 0int + 2 + 2 + 4) =~= e.subrange(0int + 2 + 2, 0int + 2 + 2 + 4));
                    lemma_le32_injective(size, v.size);
                    assert(e.subrange(0int + 2 + 2 + 4, 0int + 2 + 2 + 4 + (1 + v.name_size as int)) =~= counted(v.name_size, v.name@));
                    assert(d.subrange(pos + 0int + 2 + 2 + 4, pos + 0int + 2 + 2 + 4 + (1 + v.name_size as int)) =~= e.subrange(0int + 2 + 2 + 4, 0int + 2 + 2 + 4 + (1 + v.name_size as int)));
                    assert(d.subrange(pos + 0int + 2 + 2 + 4, pos + 0int + 2 + 2 + 4 + (1 + v.name_size as int))[0] == v.name_size);
                }
                }
                return Err(err);
            },
        };
        assert(d.subrange(p3 as int, p4 as int)[0] == name_size);
        assert(p4 == p3 + 1 + name_size);
        let v0 = XBSS { number, section, size, name_size, name };
        assert(d.subrange(pos as int, p4 as int) =~= d.subrange(pos as int, p1 as int) + d.subrange(p1 as int, p2 as int) + d.subrange(p2 as int, p3 as int) + d.subrange(p3 as int, p4 as int));
        assert(d.subrange(pos as int, p4 as int) =~= v0.encoding());
        let end = p4;
        proof {
                assert forall|v: XBSS| #[trigger] v.encodes_at(d, pos as int) && v.well_formed() implies v0.encoding() == v.encoding() && end == pos + v.encoding().len() by {
                    let e = v.encoding();
                    assert(d.subrange(pos as int, pos + e.len()) == e);
                    assert(e.subrange(0int, 0int + 2) =~= le16(v.number));
                    assert(d.subrange(pos + 0int, pos + 0int + 2) =~= e.subrange(0int, 0int + 2));
                    lemma_le16_injective(number, v.number);
                    assert(e.subrange(0int + 2, 0int + 2 + 2) =~= le16(v.section));
                    assert(d.subrange(pos + 0int + 2, pos + 0int + 2 + 2) =~= e.subrange(0int + 2, 0int + 2 + 2));
                    lemma_le16_injective(section, v.section);
                    assert(e.subrange(0int + 2 + 2, 0int + 2 + 2 + 4) =~= le32(v.size));
                    assert(d.subrange(pos + 0int + 2 + 2, pos + 0int + 2 + 2 + 4) =~= e.subrange(0int + 2 + 2, 0int + 2 + 2 + 4));
                    lemma_le32_injective(size, v.size);
                    assert(e.subrange(0int + 2 + 2 + 4, 0int + 2 + 2 + 4 + (1 + v.name_size as int)) =~= counted(v.name_size, v.name@));
                    assert(d.subrange(pos + 0int + 2 + 2 + 4, pos + 0int + 2 + 2 + 4 + (1 + v.name_size as int)) =~= e.subrange(0int + 2 + 2 + 4, 0int + 2 + 2 + 4 + (1 + v.name_size as int)));
                    assert(d.subrange(p3 as int, p3 + 1 + name_size)[0] == name_size);
                    assert(d.subrange(pos + 0int + 2 + 2 + 4, pos + 0int + 2 + 2 + 4 + (1 + v.name_size as int))[0] == v.name_size);
                    assert(p4 == p3 + 1 + name_size);
                    assert(name@ =~= v.name@) by {
                        assert(d.subrange(p3 + 1, p3 + 1 + name_size) =~= d.subrange(p3 as int, p4 as int).subrange(1, 1 + name_size));
                        assert(counted(name_size, name@).subrange(1, 1 + name_size) =~= name@);
                        assert(d.subrange(pos + 0int + 2 + 2 + 4 + 1, pos + 0int + 2 + 2 + 4 + (1 + v.name_size as int)) =~= d.subrange(pos + 0int + 2 + 2 + 4, pos + 0int + 2 + 2 + 4 + (1 + v.name_size as int)).subrange(1, 0int + 2 + 2 + 4 + (1 + v.name_size as int) - (0int + 2 + 2 + 4)));
                        assert(counted(v.name_size, v.name@).subrange(1, 0int + 2 + 2 + 4 + (1 + v.name_size as int) - (0int + 2 + 2 + 4)) =~= v.name@);
                    }
                    assert(v0.encoding() =~= v.encoding());
                }
        }
        Ok((v0, end))
    }

    /// Appends this record, without its section tag.
    pub fn write(&self, out: &mut Vec<u8>)
        ensures
            final(out)@ == old(out)@ + self.encoding(),
    {
        write_u16(out, self.number);
        write_u16(out, self.section);
        write_u32(out, self.size);
        write_counted(out, self.name_size, &self.name);
        assert(out@ =~= old(out)@ + self.encoding());
    }

    /// The `name` bytes as text, each invalid sequence replaced by U+FFFD.
    pub fn name(&self) -> (r: String)
        ensures
            r@ == lossy_text(self.name@),
            valid_utf8(self.name@) ==> r@ == decode_utf8(self.name@),
    {
        text_of(&self.name)
    }
}

/// Sets the source line number at an offset.
#[derive(Debug, Clone, PartialEq)]
pub struct SetSLDLineNum {
    pub offset: u16,
    pub linenum: u32,
}

impl SetSLDLineNum {
    /// The bytes that store this record, after its section tag.
    pub open spec fn encoding(self) -> Seq<u8> {
        le16(self.offset)
            + le32(self.linenum)
    }

    /// Every length field counts the bytes that follow it, and an expression
    /// nests no deeper than the reader accepts.
    pub open spec fn well_formed(self) -> bool {
        true
    }

    /// `data` holds the encoding of this record from `pos` on.
    pub open spec fn encodes_at(self, data: Seq<u8>, pos: int) -> bool {
        holds_at(data, pos, pos + self.encoding().len(), self.encoding())
    }

    /// Reads this record at `pos`, just after its section tag. It succeeds
    /// exactly when a well-formed record is stored there.
    pub fn read(data: &[u8], pos: usize) -> (r: Result<(SetSLDLineNum, usize), DecodeError>)
        ensures
            r matches Ok((v, end)) ==> holds_at(data@, pos as int, end as int, v.encoding())
                && v.well_formed(),
            forall|v: SetSLDLineNum|
                #[trigger] v.encodes_at(data@, pos as int) && v.well_formed() ==> (r matches Ok(
                    (x, end),
                ) && end == pos + v.encoding().len() && x.encoding() == v.encoding()),
            r matches Err(e) ==> e is Truncated,
    {
        let ghost d = data@;
        let (offset, p1) = match read_u16(data, pos) {
            Ok(x) => x,
            Err(err) => {
                proof {
                assert forall|v: SetSLDLineNum| #[trigger] v.encodes_at(d, pos as int) && v.well_formed() implies false by {
                    let e = v.encoding();
                    assert(d.subrange(pos as int, pos + e.len()) == e);
                    assert(e.subrange(0int, 0int + 2) =~= le16(v.offset));
                    assert(d.subrange(pos + 0int, pos + 0int + 2) =~= e.subrange(0int, 0int + 2));
                }
                }
                return Err(err);
            },
        };
        let (linenum, p2) = match read_u32(data, p1) {
            Ok(x) => x,
            Err(err) => {
                proof {
                assert forall|v: SetSLDLineNum| #[trigger] v.encodes_at(d, pos as int) && v.well_formed() implies false by {
                    let e = v.encoding();
                    assert(d.subrange(pos as int, pos + e.len()) == e);
                    assert(e.subrange(0int, 0int + 2) =~= le16(v.offset));
                    assert(d.subrange(pos + 0int, pos + 0int + 2) =~= e.subrange(0int, 0int + 2));
                    lemma_le16_injective(offset, v.offset);
                    assert(e.subrange(0int + 2, 0int + 2 + 4) =~= le32(v.linenum));
                    assert(d.subrange(pos + 0int + 2, pos + 0int + 2 + 4) =~= e.subrange(0int + 2, 0int + 2 + 4));
                }
                }
                return Err(err);
            },
        };
        let v0 = SetSLDLineNum { offset, linenum };
        assert(d.subrange(pos as int, p2 as int) =~= d.subrange(pos as int, p1 as int) + d.subrange(p1 as int, p2 as int));
        assert(d.subrange(pos as int, p2 as int) =~= v0.encoding());
        let end = p2;
        proof {
                assert forall|v: SetSLDLineNum| #[trigger] v.encodes_at(d, pos as int) && v.well_formed() implies v0.encoding() == v.encoding() && end == pos + v.encoding().len() by {
                    let e = v.encoding();
                    assert(d.subrange(pos as int, pos + e.len()) == e);
                    assert(e.subrange(0int, 0int + 2) =~= le16(v.offset));
                    assert(d.subrange(pos + 0int, pos + 0int + 2) =~= e.subrange(0int, 0int + 2));
                    lemma_le16_injective(offset, v.offset);
                    assert(e.subrange(0int + 2, 0int + 2 + 4) =~= le32(v.linenum));
                    assert(d.subrange(pos + 0int + 2, pos + 0int + 2 + 4) =~= e.subrange(0int + 2, 0int + 2 + 4));
                    lemma_le32_injective(linenum, v.linenum);
                    assert(v0.encoding() =~= v.encoding());
                }
        }
        Ok((v0, end))
    }

    /// Appends this record, without its section tag.
    pub fn write(&self, out: &mut Vec<u8>)
        ensures
            final(out)@ == old(out)@ + self.encoding(),
    {
        write_u16(out, self.offset);
        write_u32(out, self.linenum);
        assert(out@ =~= old(out)@ + self.encoding());
    }
}

/// Sets the source line number and file at an offset.
#[derive(Debug, Clone, PartialEq)]
pub struct SetSLDLineNumFile {
    pub offset: u16,
    pub linenum: u32,
    pub file: u16,
}

impl SetSLDLineNumFile {
    /// The bytes that store this record, after its section tag.
    pub open spec fn encoding(self) -> Seq<u8> {
        le16(self.offset)
            + le32(self.linenum)
            + le16(self.file)
    }

    /// Every length field counts the bytes that follow it, and an expression
    /// nests no deeper than the reader accepts.
    pub open spec fn well_formed(self) -> bool {
        true
    }

    /// `data` holds the encoding of this record from `pos` on.
    pub open spec fn encodes_at(self, data: Seq<u8>, pos: int) -> bool {
        holds_at(data, pos, pos + self.encoding().len(), self.encoding())
    }

    /// Reads this record at `pos`, just after its section tag. It succeeds
    /// exactly when a well-formed record is stored there.
    pub fn read(data: &[u8], pos: usize) -> (r: Result<(SetSLDLineNumFile, usize), DecodeError>)
        ensures
            r matches Ok((v, end)) ==> holds_at(data@, pos as int, end as int, v.encoding())
                && v.well_formed(),
            forall|v: SetSLDLineNumFile|
                #[trigger] v.encodes_at(data@, pos as int) && v.well_formed() ==> (r matches Ok(
                    (x, end),
                ) && end == pos + v.encoding().len() && x.encoding() == v.encoding()),
            r matches Err(e) ==> e is Truncated,
    {
        let ghost d = data@;
        let (offset, p1) = match read_u16(data, pos) {
            Ok(x) => x,
            Err(err) => {
                proof {
                assert forall|v: SetSLDLineNumFile| #[trigger] v.encodes_at(d, pos as int) && v.well_formed() implies false by {
                    let e = v.encoding();
                    assert(d.subrange(pos as int, pos + e.len()) == e);
                    assert(e.subrange(0int, 0int + 2) =~= le16(v.offset));
                    assert(d.subrange(pos + 0int, pos + 0int + 2) =~= e.subrange(0int, 0int + 2));
                }
                }
                return Err(err);
            },
        };
        let (linenum, p2) = match read_u32(data, p1) {
            Ok(x) => x,
            Err(err) => {
                proof {
                assert forall|v: SetSLDLineNumFile| #[trigger] v.encodes_at(d, pos as int) && v.well_formed() implies false by {
                    let e = v.encoding();
                    assert(d.subrange(pos as int, pos + e.len()) == e);
                    assert(e.subrange(0int, 0int + 2) =~= le16(v.offset));
                    assert(d.subrange(pos + 0int, pos + 0int + 2) =~= e.subrange(0int, 0int + 2));
                    lemma_le16_injective(offset, v.offset);
                    assert(e.subrange(0int + 2, 0int + 2 + 4) =~= le32(v.linenum));
                    assert(d.subrange(pos + 0int + 2, pos + 0int + 2 + 4) =~= e.subrange(0int + 2, 0int + 2 + 4));
                }
                }
                return Err(err);
            },
        };
        let (file, p3) = match read_u16(data, p2) {
            Ok(x) => x,
            Err(err) => {
                proof {
                assert forall|v: SetSLDLineNumFile| #[trigger] v.encodes_at(d, pos as int) && v.well_formed() implies false by {
                    let e = v.encoding();
                    assert(d.subrange(pos as int, pos + e.len()) == e);
                    assert(e.subrange(0int, 0int + 2) =~= le16(v.offset));
                    assert(d.subrange(pos + 0int, pos + 0int + 2) =~= e.subrange(0int, 0int + 2));
                    lemma_le16_injective(offset, v.offset);
                    assert(e.subrange(0int + 2, 0int + 2 + 4) =~= le32(v.linenum));
                    assert(d.subrange(pos + 0int + 2, pos + 0int + 2 + 4) =~= e.subrange(0int + 2, 0int + 2 + 4));
                    lemma_le32_injective(linenum, v.linenum);
                    assert(e.subrange(0int + 2 + 4, 0int + 2 + 4 + 2) =~= le16(v.file));
                    assert(d.subrange(pos + 0int + 2 + 4, pos + 0int + 2 + 4 + 2) =~= e.subrange(0int + 2 + 4, 0int + 2 + 4 + 2));
                }
                }
                return Err(err);
            },
        };
        let v0 = SetSLDLineNumFile { offset, linenum, file };
        assert(d.subrange(pos as int, p3 as int) =~= d.subrange(pos as int, p1 as int) + d.subrange(p1 as int, p2 as int) + d.subrange(p2 as int, p3 as int));
        assert(d.subrange(pos as int, p3 as int) =~= v0.encoding());
        let end = p3;
        proof {
                assert forall|v: SetSLDLineNumFile| #[trigger] v.encodes_at(d, pos as int) && v.well_formed() implies v0.encoding() == v.encoding() && end == pos + v.encoding().len() by {
                    let e = v.encoding();
                    assert(d.subrange(pos as int, pos + e.len()) == e);
                    assert(e.subrange(0int, 0int + 2) =~= le16(v.offset));
                    assert(d.subrange(pos + 0int, pos + 0int + 2) =~= e.subrange(0int, 0int + 2));
                    lemma_le16_injective(offset, v.offset);
                    assert(e.subrange(0int + 2, 0int + 2 + 4) =~= le32(v.linenum));
                    assert(d.subrange(pos + 0int + 2, pos + 0int + 2 + 4) =~= e.subrange(0int + 2, 0int + 2 + 4));
                    lemma_le32_injective(linenum, v.linenum);
                    assert(e.subrange(0int + 2 + 4, 0int + 2 + 4 + 2) =~= le16(v.file));
                    assert(d.subrange(pos + 0int + 2 + 4, pos + 0int + 2 + 4 + 2) =~= e.subrange(0int + 2 + 4, 0int + 2 + 4 + 2));
                    lemma_le16_injective(file, v.file);
                    assert(v0.encoding() =~= v.encoding());
                }
        }
        Ok((v0, end))
    }

    /// Appends this record, without its section tag.
    pub fn write(&self, out: &mut Vec<u8>)
        ensures
            final(out)@ == old(out)@ + self.encoding(),
    {
        write_u16(out, self.offset);
        write_u32(out, self.linenum);
        write_u16(out, self.file);
        assert(out@ =~= old(out)@ + self.encoding());
    }
}

/// Debugging information that opens a function.
#[derive(Debug, Clone, PartialEq)]
pub struct FunctionStart {
    pub section: u16,
    pub offset: u32,
    pub file: u16,
    pub linenum: u32,
    pub frame_register: u16,
    pub frame_size: u32,
    pub return_pc_register: u16,
    pub mask: u32,
    pub mask_offset: i32,
    pub name_size: u8,
    pub name: Vec<u8>,
}

impl FunctionStart {
    /// The bytes that store this record, after its section tag.
    pub open spec fn encoding(self) -> Seq<u8> {
        le16(self.section)
            + le32(self.offset)
            + le16(self.file)
            + le32(self.linenum)
            + le16(self.frame_register)
            + le32(self.frame_size)
            + le16(self.return_pc_register)
            + le32(self.mask)
            + le32(self.mask_offset as u32)
            + counted(self.name_size, self.name@)
    }

    /// Every length field counts the bytes that follow it, and an expression
    /// nests no deeper than the reader accepts.
    pub open spec fn well_formed(self) -> bool {
        self.name@.len() == self.name_size
    }

    /// `data` holds the encoding of this record from `pos` on.
    pub open spec fn encodes_at(self, data: Seq<u8>, pos: int) -> bool {
        holds_at(data, pos, pos + self.encoding().len(), self.encoding())
    }

    /// Reads this record at `pos`, just after its section tag. It succeeds
    /// exactly when a well-formed record is stored there.
    #[verifier::rlimit(100)]
    #[verifier::spinoff_prover]
    pub fn read(data: &[u8], pos: usize) -> (r: Result<(FunctionStart, usize), DecodeError>)
        ensures
            r matches Ok((v, end)) ==> holds_at(data@, pos as int, end as int, v.encoding())
                && v.well_formed(),
            forall|v: FunctionStart|
                #[trigger] v.encodes_at(data@, pos as int) && v.well_formed() ==> (r matches Ok(
                    (x, end),
                ) && end == pos + v.encoding().len() && x.encoding() == v.encoding()),
            r matches Err(e) ==> e is Truncated,
    {
        let ghost d = data@;
        let (section, p1) = match read_u16(data, pos) {
            Ok(x) => x,
            Err(err) => {
                proof {
                assert forall|v: FunctionStart| #[trigger] v.encodes_at(d, pos as int) && v.well_formed() implies false by {
                    let e = v.encoding();
                    assert(d.subrange(pos as int, pos + e.len()) == e);
                    assert(e.subrange(0int, 0int + 2) =~= le16(v.section));
                    assert(d.subrange(pos + 0int, pos + 0int + 2) =~= e.subrange(0int, 0int + 2));
                }
                }
                return Err(err);
            },
        };
        let (offset, p2) = match read_u32(data, p1) {
            Ok(x) => x,
            Err(err) => {
                proof {
                assert forall|v: FunctionStart| #[trigger] v.encodes_at(d, pos as int) && v.well_formed() implies false by {
                    let e = v.encoding();
                    assert(d.subrange(pos as int, pos + e.len()) == e);
                    assert(e.subrange(0int, 0int + 2) =~= le16(v.section));
                    assert(d.subrange(pos + 0int, pos + 0int + 2) =~= e.subrange(0int, 0int + 2));
                    lemma_le16_injective(section, v.section);
                    assert(e.subrange(0int + 2, 0int + 2 + 4) =~= le32(v.offset));
                    assert(d.subrange(pos + 0int + 2, pos + 0int + 2 + 4) =~= e.subrange(0int + 2, 0int + 2 + 4));
                }
                }
                return Err(err);
            },
        };
        let (file, p3) = match read_u16(data, p2) {
            Ok(x) => x,
            Err(err) => {
                proof {
                assert forall|v: FunctionStart| #[trigger] v.encodes_at(d, pos as int) && v.well_formed() implies false by {
                    let e = v.encoding();
                    assert(d.subrange(pos as int, pos + e.len()) == e);
                    assert(e.subrange(0int, 0int + 2) =~= le16(v.section));
                    assert(d.subrange(pos + 0int, pos + 0int + 2) =~= e.subrange(0int, 0int + 2));
                    lemma_le16_injective(section, v.section);
                    assert(e.subrange(0int + 2, 0int + 2 + 4) =~= le32(v.offset));
                    assert(d.subrange(pos + 0int + 2, pos + 0int + 2 + 4) =~= e.subrange(0int + 2, 0int + 2 + 4));
                    lemma_le32_injective(offset, v.offset);
                    assert(e.subrange(0int + 2 + 4, 0int + 2 + 4 + 2) =~= le16(v.file));
                    assert(d.subrange(pos + 0int + 2 + 4, pos + 0int + 2 + 4 + 2) =~= e.subrange(0int + 2 + 4, 0int + 2 + 4 + 2));
                }
                }
                return Err(err);
            },
        };
        let (linenum, p4) = match read_u32(data, p3) {
            Ok(x) => x,
            Err(err) => {
                proof {
                assert forall|v: FunctionStart| #[trigger] v.encodes_at(d, pos as int) && v.well_formed() implies false by {
                    let e = v.encoding();
                    assert(d.subrange(pos as int, pos + e.len()) == e);
                    assert(e.subrange(0int, 0int + 2) =~= le16(v.section));
                    assert(d.subrange(pos + 0int, pos + 0int + 2) =~= e.subrange(0int, 0int + 2));
                    lemma_le16_injective(section, v.section);
                    assert(e.subrange(0int + 2, 0int + 2 + 4) =~= le32(v.offset));
                    assert(d.subrange(pos + 0int + 2, pos + 0int + 2 + 4) =~= e.subrange(0int + 2, 0int + 2 + 4));
                    lemma_le32_injective(offset, v.offset);
                    assert(e.subrange(0int + 2 + 4, 0int + 2 + 4 + 2) =~= le16(v.file));
                    assert(d.subrange(pos + 0int + 2 + 4, pos + 0int + 2 + 4 + 2) =~= e.subrange(0int + 2 + 4, 0int + 2 + 4 + 2));
                    lemma_le16_injective(file, v.file);
                    assert(e.subrange(0int + 2 + 4 + 2, 0int + 2 + 4 + 2 + 4) =~= le32(v.linenum));
                    assert(d.subrange(pos + 0int + 2 + 4 + 2, pos + 0int + 2 + 4 + 2 + 4) =~= e.subrange(0int + 2 + 4 + 2, 0int + 2 + 4 + 2 + 4));
                }
                }
                return Err(err);
            },
        };
        let (frame_register, p5) = match read_u16(data, p4) {
            Ok(x) => x,
            Err(err) => {
                proof {
                assert forall|v: FunctionStart| #[trigger] v.encodes_at(d, pos as int) && v.well_formed() implies false by {
                    let e = v.encoding();
                    assert(d.subrange(pos as int, pos + e.len()) == e);
                    assert(e.subrange(0int, 0int + 2) =~= le16(v.section));
                    assert(d.subrange(pos + 0int, pos + 0int + 2) =~= e.subrange(0int, 0int + 2));
                    lemma_le16_injective(section, v.section);
                    assert(e.subrange(0int + 2, 0int + 2 + 4) =~= le32(v.offset));
                    assert(d.subrange(pos + 0int + 2, pos + 0int + 2 + 4) =~= e.subrange(0int + 2, 0int + 2 + 4));
                    lemma_le32_injective(offset, v.offset);
                    assert(e.subrange(0int + 2 + 4, 0int + 2 + 4 + 2) =~= le16(v.file));
                    assert(d.subrange(pos + 0int + 2 + 4, pos + 0int + 2 + 4 + 2) =~= e.subrange(0int + 2 + 4, 0int + 2 + 4 + 2));
                    lemma_le16_injective(file, v.file);
                    assert(e.subrange(0int + 2 + 4 + 2, 0int + 2 + 4 + 2 + 4) =~= le32(v.linenum));
                    assert(d.subrange(pos + 0int + 2 + 4 + 2, pos + 0int + 2 + 4 + 2 + 4) =~= e.subrange(0int + 2 + 4 + 2, 0int + 2 + 4 + 2 + 4));
                    lemma_le32_injective(linenum, v.linenum);
                    assert(e.subrange(0int + 2 + 4 + 2 + 4, 0int + 2 + 4 + 2 + 4 + 2) =~= le16(v.frame_register));
                    assert(d.subrange(pos + 0int + 2 + 4 + 2 + 4, pos + 0int + 2 + 4 + 2 + 4 + 2) =~= e.subrange(0int + 2 + 4 + 2 + 4, 0int + 2 + 4 + 2 + 4 + 2));
                }
                }
                return Err(err);
            },
        };
        let (frame_size, p6) = match read_u32(data, p5) {
            Ok(x) => x,
            Err(err) => {
                proof {
                assert forall|v: FunctionStart| #[trigger] v.encodes_at(d, pos as int) && v.well_formed() implies false by {
                    let e = v.encoding();
                    assert(d.subrange(pos as int, pos + e.len()) == e);
                    assert(e.subrange(0int, 0int + 2) =~= le16(v.section));
                    assert(d.subrange(pos + 0int, pos + 0int + 2) =~= e.subrange(0int, 0int + 2));
                    lemma_le16_injective(section, v.section);
                    assert(e.subrange(0int + 2, 0int + 2 + 4) =~= le32(v.offset));
                    assert(d.subrange(pos + 0int + 2, pos + 0int + 2 + 4) =~= e.subrange(0int + 2, 0int + 2 + 4));
                    lemma_le32_injective(offset, v.offset);
                    assert(e.subrange(0int + 2 + 4, 0int + 2 + 4 + 2) =~= le16(v.file));
                    assert(d.subrange(pos + 0int + 2 + 4, pos + 0int + 2 + 4 + 2) =~= e.subrange(0int + 2 + 4, 0int + 2 + 4 + 2));
                    lemma_le16_injective(file, v.file);
                    assert(e.subrange(0int + 2 + 4 + 2, 0int + 2 + 4 + 2 + 4) =~= le32(v.linenum));
                    assert(d.subrange(pos + 0int + 2 + 4 + 2, pos + 0int + 2 + 4 + 2 + 4) =~= e.subrange(0int + 2 + 4 + 2, 0int + 2 + 4 + 2 + 4));
                    lemma_le32_injective(linenum, v.linenum);
                    assert(e.subrange(0int + 2 + 4 + 2 + 4, 0int + 2 + 4 + 2 + 4 + 2) =~= le16(v.frame_register));
                    assert(d.subrange(pos + 0int + 2 + 4 + 2 + 4, pos + 0int + 2 + 4 + 2 + 4 + 2) =~= e.subrange(0int + 2 + 4 + 2 + 4, 0int + 2 + 4 + 2 + 4 + 2));
                    lemma_le16_injective(frame_register, v.frame_register);
                    assert(e.subrange(0int + 2 + 4 + 2 + 4 + 2, 0int + 2 + 4 + 2 + 4 + 2 + 4) =~= le32(v.frame_size));
                    assert(d.subrange(pos + 0int + 2 + 4 + 2 + 4 + 2, pos + 0int + 2 + 4 + 2 + 4 + 2 + 4) =~= e.subrange(0int + 2 + 4 + 2 + 4 + 2, 0int + 2 + 4 + 2 + 4 + 2 + 4));
                }
                }
                return Err(err);
            },
        };
        let (return_pc_register, p7) = match read_u16(data, p6) {
            Ok(x) => x,
            Err(err) => {
                proof {
                assert forall|v: FunctionStart| #[trigger] v.encodes_at(d, pos as int) && v.well_formed() implies false by {
                    let e = v.encoding();
                    assert(d.subrange(pos as int, pos + e.len()) == e);
                    assert(e.subrange(0int, 0int + 2) =~= le16(v.section));
                    assert(d.subrange(pos + 0int, pos + 0int + 2) =~= e.subrange(0int, 0int + 2));
                    lemma_le16_injective(section, v.section);
                    assert(e.subrange(0int + 2, 0int + 2 + 4) =~= le32(v.offset));
                    assert(d.subrange(pos + 0int + 2, pos + 0int + 2 + 4) =~= e.subrange(0int + 2, 0int + 2 + 4));
                    lemma_le32_injective(offset, v.offset);
                    assert(e.subrange(0int + 2 + 4, 0int + 2 + 4 + 2) =~= le16(v.file));
                    assert(d.subrange(pos + 0int + 2 + 4, pos + 0int + 2 + 4 + 2) =~= e.subrange(0int + 2 + 4, 0int + 2 + 4 + 2));
                    lemma_le16_injective(file, v.file);
                    assert(e.subrange(0int + 2 + 4 + 2, 0int + 2 + 4 + 2 + 4) =~= le32(v.linenum));
                    assert(d.subrange(pos + 0int + 2 + 4 + 2, pos + 0int + 2 + 4 + 2 + 4) =~= e.subrange(0int + 2 + 4 + 2, 0int + 2 + 4 + 2 + 4));
                    lemma_le32_injective(linenum, v.linenum);
                    assert(e.subrange(0int + 2 + 4 + 2 + 4, 0int + 2 + 4 + 2 + 4 + 2) =~= le16(v.frame_register));
                    assert(d.subrange(pos + 0int + 2 + 4 + 2 + 4, pos + 0int + 2 + 4 + 2 + 4 + 2) =~= e.subrange(0int + 2 + 4 + 2 + 4, 0int + 2 + 4 + 2 + 4 + 2));
                    lemma_le16_injective(frame_register, v.frame_register);
                    assert(e.subrange(0int + 2 + 4 + 2 + 4 + 2, 0int + 2 + 4 + 2 + 4 + 2 + 4) =~= le32(v.frame_size));
                    assert(d.subrange(pos + 0int + 2 + 4 + 2 + 4 + 2, pos + 0int + 2 + 4 + 2 + 4 + 2 + 4) =~= e.subrange(0int + 2 + 4 + 2 + 4 + 2, 0int + 2 + 4 + 2 + 4 + 2 + 4));
                    lemma_le32_injective(frame_size, v.frame_size);
                    assert(e.subrange(0int + 2 + 4 + 2 + 4 + 2 + 4, 0int + 2 + 4 + 2 + 4 + 2 + 4 + 2) =~= le16(v.return_pc_register));
                    assert(d.subrange(pos + 0int + 2 + 4 + 2 + 4 + 2 + 4, pos + 0int + 2 + 4 + 2 + 4 + 2 + 4 + 2) =~= e.subrange(0int + 2 + 4 + 2 + 4 + 2 + 4, 0int + 2 + 4 + 2 + 4 + 2 + 4 + 2));
                }
                }
                return Err(err);
            },
        };
        let (mask, p8) = match read_u32(data, p7) {
            Ok(x) => x,
            Err(err) => {
                proof {
                assert forall|v: FunctionStart| #[trigger] v.encodes_at(d, pos as int) && v.well_formed() implies false by {
                    let e = v.encoding();
                    assert(d.subrange(pos as int, pos + e.len()) == e);
                    assert(e.subrange(0int, 0int + 2) =~= le16(v.section));
                    assert(d.subrange(pos + 0int, pos + 0int + 2) =~= e.subrange(0int, 0int + 2));
                    lemma_le16_injective(section, v.section);
                    assert(e.subrange(0int + 2, 0int + 2 + 4) =~= le32(v.offset));
                    assert(d.subrange(pos + 0int + 2, pos + 0int + 2 + 4) =~= e.subrange(0int + 2, 0int + 2 + 4));
                    lemma_le32_injective(offset, v.offset);
                    assert(e.subrange(0int + 2 + 4, 0int + 2 + 4 + 2) =~= le16(v.file));
                    assert(d.subrange(pos + 0int + 2 + 4, pos + 0int + 2 + 4 + 2) =~= e.subrange(0int + 2 + 4, 0int + 2 + 4 + 2));
                    lemma_le16_injective(file, v.file);
                    assert(e.subrange(0int + 2 + 4 + 2, 0int + 2 + 4 + 2 + 4) =~= le32(v.linenum));
                    assert(d.subrange(pos + 0int + 2 + 4 + 2, pos + 0int + 2 + 4 + 2 + 4) =~= e.subrange(0int + 2 + 4 + 2, 0int + 2 + 4 + 2 + 4));
                    lemma_le32_injective(linenum, v.linenum);
                    assert(e.subrange(0int + 2 + 4 + 2 + 4, 0int + 2 + 4 + 2 + 4 + 2) =~= le16(v.frame_register));
                    assert(d.subrange(pos + 0int + 2 + 4 + 2 + 4, pos + 0int + 2 + 4 + 2 + 4 + 2) =~= e.subrange(0int + 2 + 4 + 2 + 4, 0int + 2 + 4 + 2 + 4 + 2));
                    lemma_le16_injective(frame_register, v.frame_register);
                    assert(e.subrange(0int + 2 + 4 + 2 + 4 + 2, 0int + 2 + 4 + 2 + 4 + 2 + 4) =~= le32(v.frame_size));
                    assert(d.subrange(pos + 0int + 2 + 4 + 2 + 4 + 2, pos + 0int + 2 + 4 + 2 + 4 + 2 + 4) =~= e.subrange(0int + 2 + 4 + 2 + 4 + 2, 0int + 2 + 4 + 2 + 4 + 2 + 4));
                    lemma_le32_injective(frame_size, v.frame_size);
                    assert(e.subrange(0int + 2 + 4 + 2 + 4 + 2 + 4, 0int + 2 + 4 + 2 + 4 + 2 + 4 + 2) =~= le16(v.return_pc_register));
                    assert(d.subrange(pos + 0int + 2 + 4 + 2 + 4 + 2 + 4, pos + 0int + 2 + 4 + 2 + 4 + 2 + 4 + 2) =~= e.subrange(0int + 2 + 4 + 2 + 4 + 2 + 4, 0int + 2 + 4 + 2 + 4 + 2 + 4 + 2));
                    lemma_le16_injective(return_pc_register, v.return_pc_register);
                    assert(e.subrange(0int + 2 + 4 + 2 + 4 + 2 + 4 + 2, 0int + 2 + 4 + 2 + 4 + 2 + 4 + 2 + 4) =~= le32(v.mask));
                    assert(d.subrange(pos + 0int + 2 + 4 + 2 + 4 + 2 + 4 + 2, pos + 0int + 2 + 4 + 2 + 4 + 2 + 4 + 2 + 4) =~= e.subrange(0int + 2 + 4 + 2 + 4 + 2 + 4 + 2, 0int + 2 + 4 + 2 + 4 + 2 + 4 + 2 + 4));
                }
                }
                return Err(err);
            },
        };
        let (mask_offset_bits, p9) = match read_u32(data, p8) {
            Ok(x) => x,
            Err(err) => {
                proof {
                assert forall|v: FunctionStart| #[trigger] v.encodes_at(d, pos as int) && v.well_formed() implies false by {
                    let e = v.encoding();
                    assert(d.subrange(pos as int, pos + e.len()) == e);
                    assert(e.subrange(0int, 0int + 2) =~= le16(v.section));
                    assert(d.subrange(pos + 0int, pos + 0int + 2) =~= e.subrange(0int, 0int + 2));
                    lemma_le16_injective(section, v.section);
                    assert(e.subrange(0int + 2, 0int + 2 + 4) =~= le32(v.offset));
                    assert(d.subrange(pos + 0int + 2, pos + 0int + 2 + 4) =~= e.subrange(0int + 2, 0int + 2 + 4));
                    lemma_le32_injective(offset, v.offset);
                    assert(e.subrange(0int + 2 + 4, 0int + 2 + 4 + 2) =~= le16(v.file));
                    assert(d.subrange(pos + 0int + 2 + 4, pos + 0int + 2 + 4 + 2) =~= e.subrange(0int + 2 + 4, 0int + 2 + 4 + 2));
                    lemma_le16_injective(file, v.file);
                    assert(e.subrange(0int + 2 + 4 + 2, 0int + 2 + 4 + 2 + 4) =~= le32(v.linenum));
                    assert(d.subrange(pos + 0int + 2 + 4 + 2, pos + 0int + 2 + 4 + 2 + 4) =~= e.subrange(0int + 2 + 4 + 2, 0int + 2 + 4 + 2 + 4));
                    lemma_le32_injective(linenum, v.linenum);
                    assert(e.subrange(0int + 2 + 4 + 2 + 4, 0int + 2 + 4 + 2 + 4 + 2) =~= le16(v.frame_register));
                    assert(d.subrange(pos + 0int + 2 + 4 + 2 + 4, pos + 0int + 2 + 4 + 2 + 4 + 2) =~= e.subrange(0int + 2 + 4 + 2 + 4, 0int + 2 + 4 + 2 + 4 + 2));
                    lemma_le16_injective(frame_register, v.frame_register);
                    assert(e.subrange(0int + 2 + 4 + 2 + 4 + 2, 0int + 2 + 4 + 2 + 4 + 2 + 4) =~= le32(v.frame_size));
                    assert(d.subrange(pos + 0int + 2 + 4 + 2 + 4 + 2, pos + 0int + 2 + 4 + 2 + 4 + 2 + 4) =~= e.subrange(0int + 2 + 4 + 2 + 4 + 2, 0int + 2 + 4 + 2 + 4 + 2 + 4));
                    lemma_le32_injective(frame_size, v.frame_size);
                    assert(e.subrange(0int + 2 + 4 + 2 + 4 + 2 + 4, 0int + 2 + 4 + 2 + 4 + 2 + 4 + 2) =~= le16(v.return_pc_register));
                    assert(d.subrange(pos + 0int + 2 + 4 + 2 + 4 + 2 + 4, pos + 0int + 2 + 4 + 2 + 4 + 2 + 4 + 2) =~= e.subrange(0int + 2 + 4 + 2 + 4 + 2 + 4, 0int + 2 + 4 + 2 + 4 + 2 + 4 + 2));
                    lemma_le16_injective(return_pc_register, v.return_pc_register);
                    assert(e.subrange(0int + 2 + 4 + 2 + 4 + 2 + 4 + 2, 0int + 2 + 4 + 2 + 4 + 2 + 4 + 2 + 4) =~= le32(v.mask));
                    assert(d.subrange(pos + 0int + 2 + 4 + 2 + 4 + 2 + 4 + 2, pos + 0int + 2 + 4 + 2 + 4 + 2 + 4 + 2 + 4) =~= e.subrange(0int + 2 + 4 + 2 + 4 + 2 + 4 + 2, 0int + 2 + 4 + 2 + 4 + 2 + 4 + 2 + 4));
                    lemma_le32_injective(mask, v.mask);
                    assert(e.subrange(0int + 2 + 4 + 2 + 4 + 2 + 4 + 2 + 4, 0int + 2 + 4 + 2 + 4 + 2 + 4 + 2 + 4 + 4) =~= le32(v.mask_offset as u32));
                    assert(d.subrange(pos + 0int + 2 + 4 + 2 + 4 + 2 + 4 + 2 + 4, pos + 0int + 2 + 4 + 2 + 4 + 2 + 4 + 2 + 4 + 4) =~= e.subrange(0int + 2 + 4 + 2 + 4 + 2 + 4 + 2 + 4, 0int + 2 + 4 + 2 + 4 + 2 + 4 + 2 + 4 + 4));
                }
                }
                return Err(err);
            },
        };
        let mask_offset = mask_offset_bits as i32;
        assert(mask_offset as u32 == mask_offset_bits) by (bit_vector)
            requires
                mask_offset == mask_offset_bits as i32,
        ;
        let (name_size, name, p10) = match read_counted(data, p9) {
            Ok(x) => x,
            Err(err) => {
                proof {
                assert forall|v: FunctionStart| #[trigger] v.encodes_at(d, pos as int) && v.well_formed() implies false by {
                    let e = v.encoding();
                    assert(d.subrange(pos as int, pos + e.len()) == e);
                    assert(e.subrange(0int, 0int + 2) =~= le16(v.section));
                    assert(d.subrange(pos + 0int, pos + 0int + 2) =~= e.subrange(0int, 0int + 2));
                    lemma_le16_injective(section, v.section);
                    assert(e.subrange(0int + 2, 0int + 2 + 4) =~= le32(v.offset));
                    assert(d.subrange(pos + 0int + 2, pos + 0int + 2 + 4) =~= e.subrange(0int + 2, 0int + 2 + 4));
                    lemma_le32_injective(offset, v.offset);
                    assert(e.subrange(0int + 2 + 4, 0int + 2 + 4 + 2) =~= le16(v.file));
                    assert(d.subrange(pos + 0int + 2 + 4, pos + 0int + 2 + 4 + 2) =~= e.subrange(0int + 2 + 4, 0int + 2 + 4 + 2));
                    lemma_le16_injective(file, v.file);
                    assert(e.subrange(0int + 2 + 4 + 2, 0int + 2 + 4 + 2 + 4) =~= le32(v.linenum));
                    assert(d.subrange(pos + 0int + 2 + 4 + 2, pos + 0int + 2 + 4 + 2 + 4) =~= e.subrange(0int + 2 + 4 + 2, 0int + 2 + 4 + 2 + 4));
                    lemma_le32_injective(linenum, v.linenum);
                    assert(e.subrange(0int + 2 + 4 + 2 + 4, 0int + 2 + 4 + 2 + 4 + 2) =~= le16(v.frame_register));
                    assert(d.subrange(pos + 0int + 2 + 4 + 2 + 4, pos + 0int + 2 + 4 + 2 + 4 + 2) =~= e.subrange(0int + 2 + 4 + 2 + 4, 0int + 2 + 4 + 2 + 4 + 2));
                    lemma_le16_injective(frame_register, v.frame_register);
                    assert(e.subrange(0int + 2 + 4 + 2 + 4 + 2, 0int + 2 + 4 + 2 + 4 + 2 + 4) =~= le32(v.frame_size));
                    assert(d.subrange(pos + 0int + 2 + 4 + 2 + 4 + 2, pos + 0int + 2 + 4 + 2 + 4 + 2 + 4) =~= e.subrange(0int + 2 + 4 + 2 + 4 + 2, 0int + 2 + 4 + 2 + 4 + 2 + 4));
                    lemma_le32_injective(frame_size, v.frame_size);
                    assert(e.subrange(0int + 2 + 4 + 2 + 4 + 2 + 4, 0int + 2 + 4 + 2 + 4 + 2 + 4 + 2) =~= le16(v.return_pc_register));
                    assert(d.subrange(pos + 0int + 2 + 4 + 2 + 4 + 2 + 4, pos + 0int + 2 + 4 + 2 + 4 + 2 + 4 + 2) =~= e.subrange(0int + 2 + 4 + 2 + 4 + 2 + 4, 0int + 2 + 4 + 2 + 4 + 2 + 4 + 2));
                    lemma_le16_injective(return_pc_register, v.return_pc_register);
                    assert(e.subrange(0int + 2 + 4 + 2 + 4 + 2 + 4 + 2, 0int + 2 + 4 + 2 + 4 + 2 + 4 + 2 + 4) =~= le32(v.mask));
                    assert(d.subrange(pos + 0int + 2 + 4 + 2 + 4 + 2 + 4 + 2, pos + 0int + 2 + 4 + 2 + 4 + 2 + 4 + 2 + 4) =~= e.subrange(0int + 2 + 4 + 2 + 4 + 2 + 4 + 2, 0int + 2 + 4 + 2 + 4 + 2 + 4 + 2 + 4));
                    lemma_le32_injective(mask, v.mask);
                    assert(e.subrange(0int + 2 + 4 + 2 + 4 + 2 + 4 + 2 + 4, 0int + 2 + 4 + 2 + 4 + 2 + 4 + 2 + 4 + 4) =~= le32(v.mask_offset as u32));
                    assert(d.subrange(pos + 0int + 2 + 4 + 2 + 4 + 2 + 4 + 2 + 4, pos + 0int + 2 + 4 + 2 + 4 + 2 + 4 + 2 + 4 + 4) =~= e.subrange(0int + 2 + 4 + 2 + 4 + 2 + 4 + 2 + 4, 0int + 2 + 4 + 2 + 4 + 2 + 4 + 2 + 4 + 4));
                    lemma_le32_injective(mask_offset as u32, v.mask_offset as u32);
                    lemma_i32_bits(mask_offset, v.mask_offset);
                    assert(e.subrange(0int + 2 + 4 + 2 + 4 + 2 + 4 + 2 + 4 + 4, 0int + 2 + 4 + 2 + 4 + 2 + 4 + 2 + 4 + 4 + (1 + v.name_size as int)) =~= counted(v.name_size, v.name@));
                    assert(d.subrange(pos + 0int + 2 + 4 + 2 + 4 + 2 + 4 + 2 + 4 + 4, pos + 0int + 2 + 4 + 2 + 4 + 2 + 4 + 2 + 4 + 4 + (1 + v.name_size as int)) =~= e.subrange(0int + 2 + 4 + 2 + 4 + 2 + 4 + 2 + 4 + 4, 0int + 2 + 4 + 2 + 4 + 2 + 4 + 2 + 4 + 4 + (1 + v.name_size as int)));
                    assert(d.subrange(pos + 0int + 2 + 4 + 2 + 4 + 2 + 4 + 2 + 4 + 4, pos + 0int + 2 + 4 + 2 + 4 + 2 + 4 + 2 + 4 + 4 + (1 + v.name_size as int))[0] == v.name_size);
                }
                }
                return Err(err);
            },
        };
        assert(d.subrange(p9 as int, p10 as int)[0] == name_size);
        assert(p10 == p9 + 1 + name_size);
        let v0 = FunctionStart { section, offset, file, linenum, frame_register, frame_size, return_pc_register, mask, mask_offset, name_size, name };
        assert(d.subrange(pos as int, p10 as int) =~= d.subrange(pos as int, p1 as int) + d.subrange(p1 as int, p2 as int) + d.subrange(p2 as int, p3 as int) + d.subrange(p3 as int, p4 as int) + d.subrange(p4 as int, p5 as int) + d.subrange(p5 as int, p6 as int) + d.subrange(p6 as int, p7 as int) + d.subrange(p7 as int, p8 as int) + d.subrange(p8 as int, p9 as int) + d.subrange(p9 as int, p10 as int));
        assert(d.subrange(pos as int, p10 as int) =~= v0.encoding());
        let end = p10;
        proof {
                assert forall|v: FunctionStart| #[trigger] v.encodes_at(d, pos as int) && v.well_formed() implies v0.encoding() == v.encoding() && end == pos + v.encoding().len() by {
                    let e = v.encoding();
                    assert(d.subrange(pos as int, pos + e.len()) == e);
                    assert(e.subrange(0int, 0int + 2) =~= le16(v.section));
                    assert(d.subrange(pos + 0int, pos + 0int + 2) =~= e.subrange(0int, 0int + 2));
                    lemma_le16_injective(section, v.section);
                    assert(e.subrange(0int + 2, 0int + 2 + 4) =~= le32(v.offset));
                    assert(d.subrange(pos + 0int + 2, pos + 0int + 2 + 4) =~= e.subrange(0int + 2, 0int + 2 + 4));
                    lemma_le32_injective(offset, v.offset);
                    assert(e.subrange(0int + 2 + 4, 0int + 2 + 4 + 2) =~= le16(v.file));
                    assert(d.subrange(pos + 0int + 2 + 4, pos + 0int + 2 + 4 + 2) =~= e.subrange(0int + 2 + 4, 0int + 2 + 4 + 2));
                    lemma_le16_injective(file, v.file);
                    assert(e.subrange(0int + 2 + 4 + 2, 0int + 2 + 4 + 2 + 4) =~= le32(v.linenum));
                    assert(d.subrange(pos + 0int + 2 + 4 + 2, pos + 0int + 2 + 4 + 2 + 4) =~= e.subrange(0int + 2 + 4 + 2, 0int + 2 + 4 + 2 + 4));
                    lemma_le32_injective(linenum, v.linenum);
                    assert(e.subrange(0int + 2 + 4 + 2 + 4, 0int + 2 + 4 + 2 + 4 + 2) =~= le16(v.frame_register));
                    assert(d.subrange(pos + 0int + 2 + 4 + 2 + 4, pos + 0int + 2 + 4 + 2 + 4 + 2) =~= e.subrange(0int + 2 + 4 + 2 + 4, 0int + 2 + 4 + 2 + 4 + 2));
                    lemma_le16_injective(frame_register, v.frame_register);
                    assert(e.subrange(0int + 2 + 4 + 2 + 4 + 2, 0int + 2 + 4 + 2 + 4 + 2 + 4) =~= le32(v.frame_size));
                    assert(d.subrange(pos + 0int + 2 + 4 + 2 + 4 + 2, pos + 0int + 2 + 4 + 2 + 4 + 2 + 4) =~= e.subrange(0int + 2 + 4 + 2 + 4 + 2, 0int + 2 + 4 + 2 + 4 + 2 + 4));
                    lemma_le32_injective(frame_size, v.frame_size);
                    assert(e.subrange(0int + 2 + 4 + 2 + 4 + 2 + 4, 0int + 2 + 4 + 2 + 4 + 2 + 4 + 2) =~= le16(v.return_pc_register));
                    assert(d.subrange(pos + 0int + 2 + 4 + 2 + 4 + 2 + 4, pos + 0int + 2 + 4 + 2 + 4 + 2 + 4 + 2) =~= e.subrange(0int + 2 + 4 + 2 + 4 + 2 + 4, 0int + 2 + 4 + 2 + 4 + 2 + 4 + 2));
                    lemma_le16_injective(return_pc_register, v.return_pc_register);
                    assert(e.subrange(0int + 2 + 4 + 2 + 4 + 2 + 4 + 2, 0int + 2 + 4 + 2 + 4 + 2 + 4 + 2 + 4) =~= le32(v.mask));
                    assert(d.subrange(pos + 0int + 2 + 4 + 2 + 4 + 2 + 4 + 2, pos + 0int + 2 + 4 + 2 + 4 + 2 + 4 + 2 + 4) =~= e.subrange(0int + 2 + 4 + 2 + 4 + 2 + 4 + 2, 0int + 2 + 4 + 2 + 4 + 2 + 4 + 2 + 4));
                    lemma_le32_injective(mask, v.mask);
                    assert(e.subrange(0int + 2 + 4 + 2 + 4 + 2 + 4 + 2 + 4, 0int + 2 + 4 + 2 + 4 + 2 + 4 + 2 + 4 + 4) =~= le32(v.mask_offset as u32));
                    assert(d.subrange(pos + 0int + 2 + 4 + 2 + 4 + 2 + 4 + 2 + 4, pos + 0int + 2 + 4 + 2 + 4 + 2 + 4 + 2 + 4 + 4) =~= e.subrange(0int + 2 + 4 + 2 + 4 + 2 + 4 + 2 + 4, 0int + 2 + 4 + 2 + 4 + 2 + 4 + 2 + 4 + 4));
                    lemma_le32_injective(mask_offset as u32, v.mask_offset as u32);
                    lemma_i32_bits(mask_offset, v.mask_offset);
                    assert(e.subrange(0int + 2 + 4 + 2 + 4 + 2 + 4 + 2 + 4 + 4, 0int + 2 + 4 + 2 + 4 + 2 + 4 + 2 + 4 + 4 + (1 + v.name_size as int)) =~= counted(v.name_size, v.name@));
                    assert(d.subrange(pos + 0int + 2 + 4 + 2 + 4 + 2 + 4 + 2 + 4 + 4, pos + 0int + 2 + 4 + 2 + 4 + 2 + 4 + 2 + 4 + 4 + (1 + v.name_size as int)) =~= e.subrange(0int + 2 + 4 + 2 + 4 + 2 + 4 + 2 + 4 + 4, 0int + 2 + 4 + 2 + 4 + 2 + 4 + 2 + 4 + 4 + (1 + v.name_size as int)));
                    assert(d.subrange(p9 as int, p9 + 1 + name_size)[0] == name_size);
                    assert(d.subrange(pos + 0int + 2 + 4 + 2 + 4 + 2 + 4 + 2 + 4 + 4, pos + 0int + 2 + 4 + 2 + 4 + 2 + 4 + 2 + 4 + 4 + (1 + v.name_size as int))[0] == v.name_size);
                    assert(p10 == p9 + 1 + name_size);
                    assert(name@ =~= v.name@) by {
                        assert(d.subrange(p9 + 1, p9 + 1 + name_size) =~= d.subrange(p9 as int, p10 as int).subrange(1, 1 + name_size));
                        assert(counted(name_size, name@).subrange(1, 1 + name_size) =~= name@);
                        assert(d.subrange(pos + 0int + 2 + 4 + 2 + 4 + 2 + 4 + 2 + 4 + 4 + 1, pos + 0int + 2 + 4 + 2 + 4 + 2 + 4 + 2 + 4 + 4 + (1 + v.name_size as int)) =~= d.subrange(pos + 0int + 2 + 4 + 2 + 4 + 2 + 4 + 2 + 4 + 4, pos + 0int + 2 + 4 + 2 + 4 + 2 + 4 + 2 + 4 + 4 + (1 + v.name_size as int)).subrange(1, 0int + 2 + 4 + 2 + 4 + 2 + 4 + 2 + 4 + 4 + (1 + v.name_size as int) - (0int + 2 + 4 + 2 + 4 + 2 + 4 + 2 + 4 + 4)));
                        assert(counted(v.name_size, v.name@).subrange(1, 0int + 2 + 4 + 2 + 4 + 2 + 4 + 2 + 4 + 4 + (1 + v.name_size as int) - (0int + 2 + 4 + 2 + 4 + 2 + 4 + 2 + 4 + 4)) =~= v.name@);
                    }
                    assert(v0.encoding() =~= v.encoding());
                }
        }
        Ok((v0, end))
    }

    /// Appends this record, without its section tag.
    pub fn write(&self, out: &mut Vec<u8>)
        ensures
            final(out)@ == old(out)@ + self.encoding(),
    {
        write_u16(out, self.section);
        write_u32(out, self.offset);
        write_u16(out, self.file);
        write_u32(out, self.linenum);
        write_u16(out, self.frame_register);
        write_u32(out, self.frame_size);
        write_u16(out, self.return_pc_register);
        write_u32(out, self.mask);
        write_u32(out, self.mask_offset as u32);
        write_counted(out, self.name_size, &self.name);
        assert(out@ =~= old(out)@ + self.encoding());
    }

    /// The `name` bytes as text, each invalid sequence replaced by U+FFFD.
    pub fn name(&self) -> (r: String)
        ensures
            r@ == lossy_text(self.name@),
            valid_utf8(self.name@) ==> r@ == decode_utf8(self.name@),
    {
        text_of(&self.name)
    }
}

/// Debugging information that closes a function.
#[derive(Debug, Clone, PartialEq)]
pub struct FunctionEnd {
    pub section: u16,
    pub offset: u32,
    pub linenum: u32,
}

impl FunctionEnd {
    /// The bytes that store this record, after its section tag.
    pub open spec fn encoding(self) -> Seq<u8> {
        le16(self.section)
            + le32(self.offset)
            + le32(self.linenum)
    }

    /// Every length field counts the bytes that follow it, and an expression
    /// nests no deeper than the reader accepts.
    pub open spec fn well_formed(self) -> bool {
        true
    }

    /// `data` holds the encoding of this record from `pos` on.
    pub open spec fn encodes_at(self, data: Seq<u8>, pos: int) -> bool {
        holds_at(data, pos, pos + self.encoding().len(), self.encoding())
    }

    /// Reads this record at `pos`, just after its section tag. It succeeds
    /// exactly when a well-formed record is stored there.
    pub fn read(data: &[u8], pos: usize) -> (r: Result<(FunctionEnd, usize), DecodeError>)
        ensures
            r matches Ok((v, end)) ==> holds_at(data@, pos as int, end as int, v.encoding())
                && v.well_formed(),
            forall|v: FunctionEnd|
                #[trigger] v.encodes_at(data@, pos as int) && v.well_formed() ==> (r matches Ok(
                    (x, end),
                ) && end == pos + v.encoding().len() && x.encoding() == v.encoding()),
            r matches Err(e) ==> e is Truncated,
    {
        let ghost d = data@;
        let (section, p1) = match read_u16(data, pos) {
            Ok(x) => x,
            Err(err) => {
                proof {
                assert forall|v: FunctionEnd| #[trigger] v.encodes_at(d, pos as int) && v.well_formed() implies false by {
                    let e = v.encoding();
                    assert(d.subrange(pos as int, pos + e.len()) == e);
                    assert(e.subrange(0int, 0int + 2) =~= le16(v.section));
                    assert(d.subrange(pos + 0int, pos + 0int + 2) =~= e.subrange(0int, 0int + 2));
                }
                }
                return Err(err);
            },
        };
        let (offset, p2) = match read_u32(data, p1) {
            Ok(x) => x,
            Err(err) => {
                proof {
                assert forall|v: FunctionEnd| #[trigger] v.encodes_at(d, pos as int) && v.well_formed() implies false by {
                    let e = v.encoding();
                    assert(d.subrange(pos as int, pos + e.len()) == e);
                    assert(e.subrange(0int, 0int + 2) =~= le16(v.section));
                    assert(d.subrange(pos + 0int, pos + 0int + 2) =~= e.subrange(0int, 0int + 2));
                    lemma_le16_injective(section, v.section);
                    assert(e.subrange(0int + 2, 0int + 2 + 4) =~= le32(v.offset));
                    assert(d.subrange(pos + 0int + 2, pos + 0int + 2 + 4) =~= e.subrange(0int + 2, 0int + 2 + 4));
                }
                }
                return Err(err);
            },
        };
        let (linenum, p3) = match read_u32(data, p2) {
            Ok(x) => x,
            Err(err) => {
                proof {
                assert forall|v: FunctionEnd| #[trigger] v.encodes_at(d, pos as int) && v.well_formed() implies false by {
                    let e = v.encoding();
                    assert(d.subrange(pos as int, pos + e.len()) == e);
                    assert(e.subrange(0int, 0int + 2) =~= le16(v.section));
                    assert(d.subrange(pos + 0int, pos + 0int + 2) =~= e.subrange(0int, 0int + 2));
                    lemma_le16_injective(section, v.section);
                    assert(e.subrange(0int + 2, 0int + 2 + 4) =~= le32(v.offset));
                    assert(d.subrange(pos + 0int + 2, pos + 0int + 2 + 4) =~= e.subrange(0int + 2, 0int + 2 + 4));
                    lemma_le32_injective(offset, v.offset);
                    assert(e.subrange(0int + 2 + 4, 0int + 2 + 4 + 4) =~= le32(v.linenum));
                    assert(d.subrange(pos + 0int + 2 + 4, pos + 0int + 2 + 4 + 4) =~= e.subrange(0int + 2 + 4, 0int + 2 + 4 + 4));
                }
                }
                return Err(err);
            },
        };
        let v0 = FunctionEnd { section, offset, linenum };
        assert(d.subrange(pos as int, p3 as int) =~= d.subrange(pos as int, p1 as int) + d.subrange(p1 as int, p2 as int) + d.subrange(p2 as int, p3 as int));
        assert(d.subrange(pos as int, p3 as int) =~= v0.encoding());
        let end = p3;
        proof {
                assert forall|v: FunctionEnd| #[trigger] v.encodes_at(d, pos as int) && v.well_formed() implies v0.encoding() == v.encoding() && end == pos + v.encoding().len() by {
                    let e = v.encoding();
                    assert(d.subrange(pos as int, pos + e.len()) == e);
                    assert(e.subrange(0int, 0int + 2) =~= le16(v.section));
                    assert(d.subrange(pos + 0int, pos + 0int + 2) =~= e.subrange(0int, 0int + 2));
                    lemma_le16_injective(section, v.section);
                    assert(e.subrange(0int + 2, 0int + 2 + 4) =~= le32(v.offset));
                    assert(d.subrange(pos + 0int + 2, pos + 0int + 2 + 4) =~= e.subrange(0int + 2, 0int + 2 + 4));
                    lemma_le32_injective(offset, v.offset);
                    assert(e.subrange(0int + 2 + 4, 0int + 2 + 4 + 4) =~= le32(v.linenum));
                    assert(d.subrange(pos + 0int + 2 + 4, pos + 0int + 2 + 4 + 4) =~= e.subrange(0int + 2 + 4, 0int + 2 + 4 + 4));
                    lemma_le32_injective(linenum, v.linenum);
                    assert(v0.encoding() =~= v.encoding());
                }
        }
        Ok((v0, end))
    }

    /// Appends this record, without its section tag.
    pub fn write(&self, out: &mut Vec<u8>)
        ensures
            final(out)@ == old(out)@ + self.encoding(),
    {
        write_u16(out, self.section);
        write_u32(out, self.offset);
        write_u32(out, self.linenum);
        assert(out@ =~= old(out)@ + self.encoding());
    }
}

/// Debugging information that opens a block.
#[derive(Debug, Clone, PartialEq)]
pub struct BlockStart {
    pub section: u16,
    pub offset: u32,
    pub linenum: u32,
}

impl BlockStart {
    /// The bytes that store this record, after its section tag.
    pub open spec fn encoding(self) -> Seq<u8> {
        le16(self.section)
            + le32(self.offset)
            + le32(self.linenum)
    }

    /// Every length field counts the bytes that follow it, and an expression
    /// nests no deeper than the reader accepts.
    pub open spec fn well_formed(self) -> bool {
        true
    }

    /// `data` holds the encoding of this record from `pos` on.
    pub open spec fn encodes_at(self, data: Seq<u8>, pos: int) -> bool {
        holds_at(data, pos, pos + self.encoding().len(), self.encoding())
    }

    /// Reads this record at `pos`, just after its section tag. It succeeds
    /// exactly when a well-formed record is stored there.
    pub fn read(data: &[u8], pos: usize) -> (r: Result<(BlockStart, usize), DecodeError>)
        ensures
            r matches Ok((v, end)) ==> holds_at(data@, pos as int, end as int, v.encoding())
                && v.well_formed(),
            forall|v: BlockStart|
                #[trigger] v.encodes_at(data@, pos as int) && v.well_formed() ==> (r matches Ok(
                    (x, end),
                ) && end == pos + v.encoding().len() && x.encoding() == v.encoding()),
            r matches Err(e) ==> e is Truncated,
    {
        let ghost d = data@;
        let (section, p1) = match read_u16(data, pos) {
            Ok(x) => x,
            Err(err) => {
                proof {
                assert forall|v: BlockStart| #[trigger] v.encodes_at(d, pos as int) && v.well_formed() implies false by {
                    let e = v.encoding();
                    assert(d.subrange(pos as int, pos + e.len()) == e);
                    assert(e.subrange(0int, 0int + 2) =~= le16(v.section));
                    assert(d.subrange(pos + 0int, pos + 0int + 2) =~= e.subrange(0int, 0int + 2));
                }
                }
                return Err(err);
            },
        };
        let (offset, p2) = match read_u32(data, p1) {
            Ok(x) => x,
            Err(err) => {
                proof {
                assert forall|v: BlockStart| #[trigger] v.encodes_at(d, pos as int) && v.well_formed() implies false by {
                    let e = v.encoding();
                    assert(d.subrange(pos as int, pos + e.len()) == e);
                    assert(e.subrange(0int, 0int + 2) =~= le16(v.section));
                    assert(d.subrange(pos + 0int, pos + 0int + 2) =~= e.subrange(0int, 0int + 2));
                    lemma_le16_injective(section, v.section);
                    assert(e.subrange(0int + 2, 0int + 2 + 4) =~= le32(v.offset));
                    assert(d.subrange(pos + 0int + 2, pos + 0int + 2 + 4) =~= e.subrange(0int + 2, 0int + 2 + 4));
                }
                }
                return Err(err);
            },
        };
        let (linenum, p3) = match read_u32(data, p2) {
            Ok(x) => x,
            Err(err) => {
                proof {
                assert forall|v: BlockStart| #[trigger] v.encodes_at(d, pos as int) && v.well_formed() implies false by {
                    let e = v.encoding();
                    assert(d.subrange(pos as int, pos + e.len()) == e);
                    assert(e.subrange(0int, 0int + 2) =~= le16(v.section));
                    assert(d.subrange(pos + 0int, pos + 0int + 2) =~= e.subrange(0int, 0int + 2));
                    lemma_le16_injective(section, v.section);
                    assert(e.subrange(0int + 2, 0int + 2 + 4) =~= le32(v.offset));
                    assert(d.subrange(pos + 0int + 2, pos + 0int + 2 + 4) =~= e.subrange(0int + 2, 0int + 2 + 4));
                    lemma_le32_injective(offset, v.offset);
                    assert(e.subrange(0int + 2 + 4, 0int + 2 + 4 + 4) =~= le32(v.linenum));
                    assert(d.subrange(pos + 0int + 2 + 4, pos + 0int + 2 + 4 + 4) =~= e.subrange(0int + 2 + 4, 0int + 2 + 4 + 4));
                }
                }
                return Err(err);
            },
        };
        let v0 = BlockStart { section, offset, linenum };
        assert(d.subrange(pos as int, p3 as int) =~= d.subrange(pos as int, p1 as int) + d.subrange(p1 as int, p2 as int) + d.subrange(p2 as int, p3 as int));
        assert(d.subrange(pos as int, p3 as int) =~= v0.encoding());
        let end = p3;
        proof {
                assert forall|v: BlockStart| #[trigger] v.encodes_at(d, pos as int) && v.well_formed() implies v0.encoding() == v.encoding() && end == pos + v.encoding().len() by {
                    let e = v.encoding();
                    assert(d.subrange(pos as int, pos + e.len()) == e);
                    assert(e.subrange(0int, 0int + 2) =~= le16(v.section));
                    assert(d.subrange(pos + 0int, pos + 0int + 2) =~= e.subrange(0int, 0int + 2));
                    lemma_le16_injective(section, v.section);
                    assert(e.subrange(0int + 2, 0int + 2 + 4) =~= le32(v.offset));
                    assert(d.subrange(pos + 0int + 2, pos + 0int + 2 + 4) =~= e.subrange(0int + 2, 0int + 2 + 4));
                    lemma_le32_injective(offset, v.offset);
                    assert(e.subrange(0int + 2 + 4, 0int + 2 + 4 + 4) =~= le32(v.linenum));
                    assert(d.subrange(pos + 0int + 2 + 4, pos + 0int + 2 + 4 + 4) =~= e.subrange(0int + 2 + 4, 0int + 2 + 4 + 4));
                    lemma_le32_injective(linenum, v.linenum);
                    assert(v0.encoding() =~= v.encoding());
                }
        }
        Ok((v0, end))
    }

    /// Appends this record, without its section tag.
    pub fn write(&self, out: &mut Vec<u8>)
        ensures
            final(out)@ == old(out)@ + self.encoding(),
    {
        write_u16(out, self.section);
        write_u32(out, self.offset);
        write_u32(out, self.linenum);
        assert(out@ =~= old(out)@ + self.encoding());
    }
}

/// Debugging information that closes a block.
#[derive(Debug, Clone, PartialEq)]
pub struct BlockEnd {
    pub section: u16,
    pub offset: u32,
    pub linenum: u32,
}

impl BlockEnd {
    /// The bytes that store this record, after its section tag.
    pub open spec fn encoding(self) -> Seq<u8> {
        le16(self.section)
            + le32(self.offset)
            + le32(self.linenum)
    }

    /// Every length field counts the bytes that follow it, and an expression
    /// nests no deeper than the reader accepts.
    pub open spec fn well_formed(self) -> bool {
        true
    }

    /// `data` holds the encoding of this record from `pos` on.
    pub open spec fn encodes_at(self, data: Seq<u8>, pos: int) -> bool {
        holds_at(data, pos, pos + self.encoding().len(), self.encoding())
    }

    /// Reads this record at `pos`, just after its section tag. It succeeds
    /// exactly when a well-formed record is stored there.
    pub fn read(data: &[u8], pos: usize) -> (r: Result<(BlockEnd, usize), DecodeError>)
        ensures
            r matches Ok((v, end)) ==> holds_at(data@, pos as int, end as int, v.encoding())
                && v.well_formed(),
            forall|v: BlockEnd|
                #[trigger] v.encodes_at(data@, pos as int) && v.well_formed() ==> (r matches Ok(
                    (x, end),
                ) && end == pos + v.encoding().len() && x.encoding() == v.encoding()),
            r matches Err(e) ==> e is Truncated,
    {
        let ghost d = data@;
        let (section, p1) = match read_u16(data, pos) {
            Ok(x) => x,
            Err(err) => {
                proof {
                assert forall|v: BlockEnd| #[trigger] v.encodes_at(d, pos as int) && v.well_formed() implies false by {
                    let e = v.encoding();
                    assert(d.subrange(pos as int, pos + e.len()) == e);
                    assert(e.subrange(0int, 0int + 2) =~= le16(v.section));
                    assert(d.subrange(pos + 0int, pos + 0int + 2) =~= e.subrange(0int, 0int + 2));
                }
                }
                return Err(err);
            },
        };
        let (offset, p2) = match read_u32(data, p1) {
            Ok(x) => x,
            Err(err) => {
                proof {
                assert forall|v: BlockEnd| #[trigger] v.encodes_at(d, pos as int) && v.well_formed() implies false by {
                    let e = v.encoding();
                    assert(d.subrange(pos as int, pos + e.len()) == e);
                    assert(e.subrange(0int, 0int + 2) =~= le16(v.section));
                    assert(d.subrange(pos + 0int, pos + 0int + 2) =~= e.subrange(0int, 0int + 2));
                    lemma_le16_injective(section, v.section);
                    assert(e.subrange(0int + 2, 0int + 2 + 4) =~= le32(v.offset));
                    assert(d.subrange(pos + 0int + 2, pos + 0int + 2 + 4) =~= e.subrange(0int + 2, 0int + 2 + 4));
                }
                }
                return Err(err);
            },
        };
        let (linenum, p3) = match read_u32(data, p2) {
            Ok(x) => x,
            Err(err) => {
                proof {
                assert forall|v: BlockEnd| #[trigger] v.encodes_at(d, pos as int) && v.well_formed() implies false by {
                    let e = v.encoding();
                    assert(d.subrange(pos as int, pos + e.len()) == e);
                    assert(e.subrange(0int, 0int + 2) =~= le16(v.section));
                    assert(d.subrange(pos + 0int, pos + 0int + 2) =~= e.subrange(0int, 0int + 2));
                    lemma_le16_injective(section, v.section);
                    assert(e.subrange(0int + 2, 0int + 2 + 4) =~= le32(v.offset));
                    assert(d.subrange(pos + 0int + 2, pos + 0int + 2 + 4) =~= e.subrange(0int + 2, 0int + 2 + 4));
                    lemma_le32_injective(offset, v.offset);
                    assert(e.subrange(0int + 2 + 4, 0int + 2 + 4 + 4) =~= le32(v.linenum));
                    assert(d.subrange(pos + 0int + 2 + 4, pos + 0int + 2 + 4 + 4) =~= e.subrange(0int + 2 + 4, 0int + 2 + 4 + 4));
                }
                }
                return Err(err);
            },
        };
        let v0 = BlockEnd { section, offset, linenum };
        assert(d.subrange(pos as int, p3 as int) =~= d.subrange(pos as int, p1 as int) + d.subrange(p1 as int, p2 as int) + d.subrange(p2 as int, p3 as int));
        assert(d.subrange(pos as int, p3 as int) =~= v0.encoding());
        let end = p3;
        proof {
                assert forall|v: BlockEnd| #[trigger] v.encodes_at(d, pos as int) && v.well_formed() implies v0.encoding() == v.encoding() && end == pos + v.encoding().len() by {
                    let e = v.encoding();
                    assert(d.subrange(pos as int, pos + e.len()) == e);
                    assert(e.subrange(0int, 0int + 2) =~= le16(v.section));
                    assert(d.subrange(pos + 0int, pos + 0int + 2) =~= e.subrange(0int, 0int + 2));
                    lemma_le16_injective(section, v.section);
                    assert(e.subrange(0int + 2, 0int + 2 + 4) =~= le32(v.offset));
                    assert(d.subrange(pos + 0int + 2, pos + 0int + 2 + 4) =~= e.subrange(0int + 2, 0int + 2 + 4));
                    lemma_le32_injective(offset, v.offset);
                    assert(e.subrange(0int + 2 + 4, 0int + 2 + 4 + 4) =~= le32(v.linenum));
                    assert(d.subrange(pos + 0int + 2 + 4, pos + 0int + 2 + 4 + 4) =~= e.subrange(0int + 2 + 4, 0int + 2 + 4 + 4));
                    lemma_le32_injective(linenum, v.linenum);
                    assert(v0.encoding() =~= v.encoding());
                }
        }
        Ok((v0, end))
    }

    /// Appends this record, without its section tag.
    pub fn write(&self, out: &mut Vec<u8>)
        ensures
            final(out)@ == old(out)@ + self.encoding(),
    {
        write_u16(out, self.section);
        write_u32(out, self.offset);
        write_u32(out, self.linenum);
        assert(out@ =~= old(out)@ + self.encoding());
    }
}

/// A variable or type definition for the debugger.
#[derive(Debug, Clone, PartialEq)]
pub struct Def {
    pub section: u16,
    pub value: u32,
    pub class: u16,
    pub def_type: u16,
    pub size: u32,
    pub name_size: u8,
    pub name: Vec<u8>,
}

impl Def {
    /// The bytes that store this record, after its section tag.
    pub open spec fn encoding(self) -> Seq<u8> {
        le16(self.section)
            + le32(self.value)
            + le16(self.class)
            + le16(self.def_type)
            + le32(self.size)
            + counted(self.name_size, self.name@)
    }

    /// Every length field counts the bytes that follow it, and an expression
    /// nests no deeper than the reader accepts.
    pub open spec fn well_formed(self) -> bool {
        self.name@.len() == self.name_size
    }

    /// `data` holds the encoding of this record from `pos` on.
    pub open spec fn encodes_at(self, data: Seq<u8>, pos: int) -> bool {
        holds_at(data, pos, pos + self.encoding().len(), self.encoding())
    }

    /// Reads this record at `pos`, just after its section tag. It succeeds
    /// exactly when a well-formed record is stored there.
    #[verifier::rlimit(100)]
    #[verifier::spinoff_prover]
    pub fn read(data: &[u8], pos: usize) -> (r: Result<(Def, usize), DecodeError>)
        ensures
            r matches Ok((v, end)) ==> holds_at(data@, pos as int, end as int, v.encoding())
                && v.well_formed(),
            forall|v: Def|
                #[trigger] v.encodes_at(data@, pos as int) && v.well_formed() ==> (r matches Ok(
                    (x, end),
                ) && end == pos + v.encoding().len() && x.encoding() == v.encoding()),
            r matches Err(e) ==> e is Truncated,
    {
        let ghost d = data@;
        let (section, p1) = match read_u16(data, pos) {
            Ok(x) => x,
            Err(err) => {
                proof {
                assert forall|v: Def| #[trigger] v.encodes_at(d, pos as int) && v.well_formed() implies false by {
                    let e = v.encoding();
                    assert(d.subrange(pos as int, pos + e.len()) == e);
                    assert(e.subrange(0int, 0int + 2) =~= le16(v.section));
                    assert(d.subrange(pos + 0int, pos + 0int + 2) =~= e.subrange(0int, 0int + 2));
                }
                }
                return Err(err);
            },
        };
        let (value, p2) = match read_u32(data, p1) {
            Ok(x) => x,
            Err(err) => {
                proof {
                assert forall|v: Def| #[trigger] v.encodes_at(d, pos as int) && v.well_formed() implies false by {
                    let e = v.encoding();
                    assert(d.subrange(pos as int, pos + e.len()) == e);
                    assert(e.subrange(0int, 0int + 2) =~= le16(v.section));
                    assert(d.subrange(pos + 0int, pos + 0int + 2) =~= e.subrange(0int, 0int + 2));
                    lemma_le16_injective(section, v.section);
                    assert(e.subrange(0int + 2, 0int + 2 + 4) =~= le32(v.value));
                    assert(d.subrange(pos + 0int + 2, pos + 0int + 2 + 4) =~= e.subrange(0int + 2, 0int + 2 + 4));
                }
                }
                return Err(err);
            },
        };
        let (class, p3) = match read_u16(data, p2) {
            Ok(x) => x,
            Err(err) => {
                proof {
                assert forall|v: Def| #[trigger] v.encodes_at(d, pos as int) && v.well_formed() implies false by {
                    let e = v.encoding();
                    assert(d.subrange(pos as int, pos + e.len()) == e);
                    assert(e.subrange(0int, 0int + 2) =~= le16(v.section));
                    assert(d.subrange(pos + 0int, pos + 0int + 2) =~= e.subrange(0int, 0int + 2));
                    lemma_le16_injective(section, v.section);
                    assert(e.subrange(0int + 2, 0int + 2 + 4) =~= le32(v.value));
                    assert(d.subrange(pos + 0int + 2, pos + 0int + 2 + 4) =~= e.subrange(0int + 2, 0int + 2 + 4));
                    lemma_le32_injective(value, v.value);
                    assert(e.subrange(0int + 2 + 4, 0int + 2 + 4 + 2) =~= le16(v.class));
                    assert(d.subrange(pos + 0int + 2 + 4, pos + 0int + 2 + 4 + 2) =~= e.subrange(0int + 2 + 4, 0int + 2 + 4 + 2));
                }
                }
                return Err(err);
            },
        };
        let (def_type, p4) = match read_u16(data, p3) {
            Ok(x) => x,
            Err(err) => {
                proof {
                assert forall|v: Def| #[trigger] v.encodes_at(d, pos as int) && v.well_formed() implies false by {
                    let e = v.encoding();
                    assert(d.subrange(pos as int, pos + e.len()) == e);
                    assert(e.subrange(0int, 0int + 2) =~= le16(v.section));
                    assert(d.subrange(pos + 0int, pos + 0int + 2) =~= e.subrange(0int, 0int + 2));
                    lemma_le16_injective(section, v.section);
                    assert(e.subrange(0int + 2, 0int + 2 + 4) =~= le32(v.value));
                    assert(d.subrange(pos + 0int + 2, pos + 0int + 2 + 4) =~= e.subrange(0int + 2, 0int + 2 + 4));
                    lemma_le32_injective(value, v.value);
                    assert(e.subrange(0int + 2 + 4, 0int + 2 + 4 + 2) =~= le16(v.class));
                    assert(d.subrange(pos + 0int + 2 + 4, pos + 0int + 2 + 4 + 2) =~= e.subrange(0int + 2 + 4, 0int + 2 + 4 + 2));
                    lemma_le16_injective(class, v.class);
                    assert(e.subrange(0int + 2 + 4 + 2, 0int + 2 + 4 + 2 + 2) =~= le16(v.def_type));
                    assert(d.subrange(pos + 0int + 2 + 4 + 2, pos + 0int + 2 + 4 + 2 + 2) =~= e.subrange(0int + 2 + 4 + 2, 0int + 2 + 4 + 2 + 2));
                }
                }
                return Err(err);
            },
        };
        let (size, p5) = match read_u32(data, p4) {
            Ok(x) => x,
            Err(err) => {
                proof {
                assert forall|v: Def| #[trigger] v.encodes_at(d, pos as int) && v.well_formed() implies false by {
                    let e = v.encoding();
                    assert(d.subrange(pos as int, pos + e.len()) == e);
                    assert(e.subrange(0int, 0int + 2) =~= le16(v.section));
                    assert(d.subrange(pos + 0int, pos + 0int + 2) =~= e.subrange(0int, 0int + 2));
                    lemma_le16_injective(section, v.section);
                    assert(e.subrange(0int + 2, 0int + 2 + 4) =~= le32(v.value));
                    assert(d.subrange(pos + 0int + 2, pos + 0int + 2 + 4) =~= e.subrange(0int + 2, 0int + 2 + 4));
                    lemma_le32_injective(value, v.value);
                    assert(e.subrange(0int + 2 + 4, 0int + 2 + 4 + 2) =~= le16(v.class));
                    assert(d.subrange(pos + 0int + 2 + 4, pos + 0int + 2 + 4 + 2) =~= e.subrange(0int + 2 + 4, 0int + 2 + 4 + 2));
                    lemma_le16_injective(class, v.class);
                    assert(e.subrange(0int + 2 + 4 + 2, 0int + 2 + 4 + 2 + 2) =~= le16(v.def_type));
                    assert(d.subrange(pos + 0int + 2 + 4 + 2, pos + 0int + 2 + 4 + 2 + 2) =~= e.subrange(0int + 2 + 4 + 2, 0int + 2 + 4 + 2 + 2));
                    lemma_le16_injective(def_type, v.def_type);
                    assert(e.subrange(0int + 2 + 4 + 2 + 2, 0int + 2 + 4 + 2 + 2 + 4) =~= le32(v.size));
                    assert(d.subrange(pos + 0int + 2 + 4 + 2 + 2, pos + 0int + 2 + 4 + 2 + 2 + 4) =~= e.subrange(0int + 2 + 4 + 2 + 2, 0int + 2 + 4 + 2 + 2 + 4));
                }
                }
                return Err(err);
            },
        };
        let (name_size, name, p6) = match read_counted(data, p5) {
            Ok(x) => x,
            Err(err) => {
                proof {
                assert forall|v: Def| #[trigger] v.encodes_at(d, pos as int) && v.well_formed() implies false by {
                    let e = v.encoding();
                    assert(d.subrange(pos as int, pos + e.len()) == e);
                    assert(e.subrange(0int, 0int + 2) =~= le16(v.section));
                    assert(d.subrange(pos + 0int, pos + 0int + 2) =~= e.subrange(0int, 0int + 2));
                    lemma_le16_injective(section, v.section);
                    assert(e.subrange(0int + 2, 0int + 2 + 4) =~= le32(v.value));
                    assert(d.subrange(pos + 0int + 2, pos + 0int + 2 + 4) =~= e.subrange(0int + 2, 0int + 2 + 4));
                    lemma_le32_injective(value, v.value);
                    assert(e.subrange(0int + 2 + 4, 0int + 2 + 4 + 2) =~= le16(v.class));
                    assert(d.subrange(pos + 0int + 2 + 4, pos + 0int + 2 + 4 + 2) =~= e.subrange(0int + 2 + 4, 0int + 2 + 4 + 2));
                    lemma_le16_injective(class, v.class);
                    assert(e.subrange(0int + 2 + 4 + 2, 0int + 2 + 4 + 2 + 2) =~= le16(v.def_type));
                    assert(d.subrange(pos + 0int + 2 + 4 + 2, pos + 0int + 2 + 4 + 2 + 2) =~= e.subrange(0int + 2 + 4 + 2, 0int + 2 + 4 + 2 + 2));
                    lemma_le16_injective(def_type, v.def_type);
                    assert(e.subrange(0int + 2 + 4 + 2 + 2, 0int + 2 + 4 + 2 + 2 + 4) =~= le32(v.size));
                    assert(d.subrange(pos + 0int + 2 + 4 + 2 + 2, pos + 0int + 2 + 4 + 2 + 2 + 4) =~= e.subrange(0int + 2 + 4 + 2 + 2, 0int + 2 + 4 + 2 + 2 + 4));
                    lemma_le32_injective(size, v.size);
                    assert(e.subrange(0int + 2 + 4 + 2 + 2 + 4, 0int + 2 + 4 + 2 + 2 + 4 + (1 + v.name_size as int)) =~= counted(v.name_size, v.name@));
                    assert(d.subrange(pos + 0int + 2 + 4 + 2 + 2 + 4, pos + 0int + 2 + 4 + 2 + 2 + 4 + (1 + v.name_size as int)) =~= e.subrange(0int + 2 + 4 + 2 + 2 + 4, 0int + 2 + 4 + 2 + 2 + 4 + (1 + v.name_size as int)));
                    assert(d.subrange(pos + 0int + 2 + 4 + 2 + 2 + 4, pos + 0int + 2 + 4 + 2 + 2 + 4 + (1 + v.name_size as int))[0] == v.name_size);
                }
                }
                return Err(err);
            },
        };
        assert(d.subrange(p5 as int, p6 as int)[0] == name_size);
        assert(p6 == p5 + 1 + name_size);
        let v0 = Def { section, value, class, def_type, size, name_size, name };
        assert(d.subrange(pos as int, p6 as int) =~= d.subrange(pos as int, p1 as int) + d.subrange(p1 as int, p2 as int) + d.subrange(p2 as int, p3 as int) + d.subrange(p3 as int, p4 as int) + d.subrange(p4 as int, p5 as int) + d.subrange(p5 as int, p6 as int));
        assert(d.subrange(pos as int, p6 as int) =~= v0.encoding());
        let end = p6;
        proof {
                assert forall|v: Def| #[trigger] v.encodes_at(d, pos as int) && v.well_formed() implies v0.encoding() == v.encoding() && end == pos + v.encoding().len() by {
                    let e = v.encoding();
                    assert(d.subrange(pos as int, pos + e.len()) == e);
                    assert(e.subrange(0int, 0int + 2) =~= le16(v.section));
                    assert(d.subrange(pos + 0int, pos + 0int + 2) =~= e.subrange(0int, 0int + 2));
                    lemma_le16_injective(section, v.section);
                    assert(e.subrange(0int + 2, 0int + 2 + 4) =~= le32(v.value));
                    assert(d.subrange(pos + 0int + 2, pos + 0int + 2 + 4) =~= e.subrange(0int + 2, 0int + 2 + 4));
                    lemma_le32_injective(value, v.value);
                    assert(e.subrange(0int + 2 + 4, 0int + 2 + 4 + 2) =~= le16(v.class));
                    assert(d.subrange(pos + 0int + 2 + 4, pos + 0int + 2 + 4 + 2) =~= e.subrange(0int + 2 + 4, 0int + 2 + 4 + 2));
                    lemma_le16_injective(class, v.class);
                    assert(e.subrange(0int + 2 + 4 + 2, 0int + 2 + 4 + 2 + 2) =~= le16(v.def_type));
                    assert(d.subrange(pos + 0int + 2 + 4 + 2, pos + 0int + 2 + 4 + 2 + 2) =~= e.subrange(0int + 2 + 4 + 2, 0int + 2 + 4 + 2 + 2));
                    lemma_le16_injective(def_type, v.def_type);
                    assert(e.subrange(0int + 2 + 4 + 2 + 2, 0int + 2 + 4 + 2 + 2 + 4) =~= le32(v.size));
                    assert(d.subrange(pos + 0int + 2 + 4 + 2 + 2, pos + 0int + 2 + 4 + 2 + 2 + 4) =~= e.subrange(0int + 2 + 4 + 2 + 2, 0int + 2 + 4 + 2 + 2 + 4));
                    lemma_le32_injective(size, v.size);
                    assert(e.subrange(0int + 2 + 4 + 2 + 2 + 4, 0int + 2 + 4 + 2 + 2 + 4 + (1 + v.name_size as int)) =~= counted(v.name_size, v.name@));
                    assert(d.subrange(pos + 0int + 2 + 4 + 2 + 2 + 4, pos + 0int + 2 + 4 + 2 + 2 + 4 + (1 + v.name_size as int)) =~= e.subrange(0int + 2 + 4 + 2 + 2 + 4, 0int + 2 + 4 + 2 + 2 + 4 + (1 + v.name_size as int)));
                    assert(d.subrange(p5 as int, p5 + 1 + name_size)[0] == name_size);
                    assert(d.subrange(pos + 0int + 2 + 4 + 2 + 2 + 4, pos + 0int + 2 + 4 + 2 + 2 + 4 + (1 + v.name_size as int))[0] == v.name_size);
                    assert(p6 == p5 + 1 + name_size);
                    assert(name@ =~= v.name@) by {
                        assert(d.subrange(p5 + 1, p5 + 1 + name_size) =~= d.subrange(p5 as int, p6 as int).subrange(1, 1 + name_size));
                        assert(counted(name_size, name@).subrange(1, 1 + name_size) =~= name@);
                        assert(d.subrange(pos + 0int + 2 + 4 + 2 + 2 + 4 + 1, pos + 0int + 2 + 4 + 2 + 2 + 4 + (1 + v.name_size as int)) =~= d.subrange(pos + 0int + 2 + 4 + 2 + 2 + 4, pos + 0int + 2 + 4 + 2 + 2 + 4 + (1 + v.name_size as int)).subrange(1, 0int + 2 + 4 + 2 + 2 + 4 + (1 + v.name_size as int) - (0int + 2 + 4 + 2 + 2 + 4)));
                        assert(counted(v.name_size, v.name@).subrange(1, 0int + 2 + 4 + 2 + 2 + 4 + (1 + v.name_size as int) - (0int + 2 + 4 + 2 + 2 + 4)) =~= v.name@);
                    }
                    assert(v0.encoding() =~= v.encoding());
                }
        }
        Ok((v0, end))
    }

    /// Appends this record, without its section tag.
    pub fn write(&self, out: &mut Vec<u8>)
        ensures
            final(out)@ == old(out)@ + self.encoding(),
    {
        write_u16(out, self.section);
        write_u32(out, self.value);
        write_u16(out, self.class);
        write_u16(out, self.def_type);
        write_u32(out, self.size);
        write_counted(out, self.name_size, &self.name);
        assert(out@ =~= old(out)@ + self.encoding());
    }

    /// The `name` bytes as text, each invalid sequence replaced by U+FFFD.
    pub fn name(&self) -> (r: String)
        ensures
            r@ == lossy_text(self.name@),
            valid_utf8(self.name@) ==> r@ == decode_utf8(self.name@),
    {
        text_of(&self.name)
    }
}

/// A variable or type definition with dimensions and a tag.
#[derive(Debug, Clone, PartialEq)]
pub struct Def2 {
    pub section: u16,
    pub value: u32,
    pub class: u16,
    pub def_type: u16,
    pub size: u32,
    pub dims: Dim,
    pub tag_size: u8,
    pub tag: Vec<u8>,
    pub name_size: u8,
    pub name: Vec<u8>,
}

impl Def2 {
    /// The bytes that store this record, after its section tag.
    pub open spec fn encoding(self) -> Seq<u8> {
        definition_head(self.section, self.value, self.class, self.def_type, self.size)
            + self.dims.encoding()
            + counted(self.tag_size, self.tag@)
            + counted(self.name_size, self.name@)
    }

    /// Every length field counts the bytes that follow it, and an expression
    /// nests no deeper than the reader accepts.
    pub open spec fn well_formed(self) -> bool {
        self.tag@.len() == self.tag_size
        && self.name@.len() == self.name_size
    }

    /// `data` holds the encoding of this record from `pos` on.
    pub open spec fn encodes_at(self, data: Seq<u8>, pos: int) -> bool {
        holds_at(data, pos, pos + self.encoding().len(), self.encoding())
    }

    /// Reads this record at `pos`, just after its section tag. It succeeds
    /// exactly when a well-formed record is stored there.
    #[verifier::rlimit(100)]
    #[verifier::spinoff_prover]
    pub fn read(data: &[u8], pos: usize) -> (r: Result<(Def2, usize), DecodeError>)
        ensures
            r matches Ok((v, end)) ==> holds_at(data@, pos as int, end as int, v.encoding())
                && v.well_formed(),
            forall|v: Def2|
                #[trigger] v.encodes_at(data@, pos as int) && v.well_formed() ==> (r matches Ok(
                    (x, end),
                ) && end == pos + v.encoding().len() && x.encoding() == v.encoding()),
            r matches Err(e) ==> e is Truncated || e is UnknownDimension,
    {
        let ghost d = data@;
        let (section, value, class, def_type, size, p1) = match read_definition_head(data, pos) {
            Ok(x) => x,
            Err(err) => {
                proof {
                assert forall|v: Def2| #[trigger] v.encodes_at(d, pos as int) && v.well_formed() implies false by {
                    let e = v.encoding();
                    assert(d.subrange(pos as int, pos + e.len()) == e);
                    assert(e.subrange(0int, 0int + 14) =~= definition_head(v.section, v.value, v.class, v.def_type, v.size));
                    assert(d.subrange(pos + 0int, pos + 0int + 14) =~= e.subrange(0int, 0int + 14));
                }
                }
                return Err(err);
            },
        };
        let (dims, p2) = match Dim::read(data, p1) {
            Ok(x) => x,
            Err(err) => {
                proof {
                assert forall|v: Def2| #[trigger] v.encodes_at(d, pos as int) && v.well_formed() implies false by {
                    let e = v.encoding();
                    assert(d.subrange(pos as int, pos + e.len()) == e);
                    assert(e.subrange(0int, 0int + 14) =~= definition_head(v.section, v.value, v.class, v.def_type, v.size));
                    assert(d.subrange(pos + 0int, pos + 0int + 14) =~= e.subrange(0int, 0int + 14));
                    lemma_definition_head_injective((section, value, class, def_type, size), (v.section, v.value, v.class, v.def_type, v.size));
                    assert(e.subrange(0int + 14, 0int + 14 + (v.dims.encoding().len() as int)) =~= v.dims.encoding());
                    assert(d.subrange(pos + 0int + 14, pos + 0int + 14 + (v.dims.encoding().len() as int)) =~= e.subrange(0int + 14, 0int + 14 + (v.dims.encoding().len() as int)));
                    assert(v.dims.encodes_at(d, p1 as int));
                }
                }
                return Err(err);
            },
        };
        let (tag_size, tag, p3) = match read_counted(data, p2) {
            Ok(x) => x,
            Err(err) => {
                proof {
                assert forall|v: Def2| #[trigger] v.encodes_at(d, pos as int) && v.well_formed() implies false by {
                    let e = v.encoding();
                    assert(d.subrange(pos as int, pos + e.len()) == e);
                    assert(e.subrange(0int, 0int + 14) =~= definition_head(v.section, v.value, v.class, v.def_type, v.size));
                    assert(d.subrange(pos + 0int, pos + 0int + 14) =~= e.subrange(0int, 0int + 14));
                    lemma_definition_head_injective((section, value, class, def_type, size), (v.section, v.value, v.class, v.def_type, v.size));
                    assert(e.subrange(0int + 14, 0int + 14 + (v.dims.encoding().len() as int)) =~= v.dims.encoding());
                    assert(d.subrange(pos + 0int + 14, pos + 0int + 14 + (v.dims.encoding().len() as int)) =~= e.subrange(0int + 14, 0int + 14 + (v.dims.encoding().len() as int)));
                    assert(v.dims.encodes_at(d, p1 as int));
                    assert(e.subrange(0int + 14 + (v.dims.encoding().len() as int), 0int + 14 + (v.dims.encoding().len() as int) + (1 + v.tag_size as int)) =~= counted(v.tag_size, v.tag@));
                    assert(d.subrange(pos + 0int + 14 + (v.dims.encoding().len() as int), pos + 0int + 14 + (v.dims.encoding().len() as int) + (1 + v.tag_size as int)) =~= e.subrange(0int + 14 + (v.dims.encoding().len() as int), 0int + 14 + (v.dims.encoding().len() as int) + (1 + v.tag_size as int)));
                    assert(d.subrange(pos + 0int + 14 + (v.dims.encoding().len() as int), pos + 0int + 14 + (v.dims.encoding().len() as int) + (1 + v.tag_size as int))[0] == v.tag_size);
                }
                }
                return Err(err);
            },
        };
        assert(d.subrange(p2 as int, p3 as int)[0] == tag_size);
        assert(p3 == p2 + 1 + tag_size);
        let (name_size, name, p4) = match read_counted(data, p3) {
            Ok(x) => x,
            Err(err) => {
                proof {
                assert forall|v: Def2| #[trigger] v.encodes_at(d, pos as int) && v.well_formed() implies false by {
                    let e = v.encoding();
                    assert(d.subrange(pos as int, pos + e.len()) == e);
                    assert(e.subrange(0int, 0int + 14) =~= definition_head(v.section, v.value, v.class, v.def_type, v.size));
                    assert(d.subrange(pos + 0int, pos + 0int + 14) =~= e.subrange(0int, 0int + 14));
                    lemma_definition_head_injective((section, value, class, def_type, size), (v.section, v.value, v.class, v.def_type, v.size));
                    assert(e.subrange(0int + 14, 0int + 14 + (v.dims.encoding().len() as int)) =~= v.dims.encoding());
                    assert(d.subrange(pos + 0int + 14, pos + 0int + 14 + (v.dims.encoding().len() as int)) =~= e.subrange(0int + 14, 0int + 14 + (v.dims.encoding().len() as int)));
                    assert(v.dims.encodes_at(d, p1 as int));
                    assert(e.subrange(0int + 14 + (v.dims.encoding().len() as int), 0int + 14 + (v.dims.encoding().len() as int) + (1 + v.tag_size as int)) =~= counted(v.tag_size, v.tag@));
                    assert(d.subrange(pos + 0int + 14 + (v.dims.encoding().len() as int), pos + 0int + 14 + (v.dims.encoding().len() as int) + (1 + v.tag_size as int)) =~= e.subrange(0int + 14 + (v.dims.encoding().len() as int), 0int + 14 + (v.dims.encoding().len() as int) + (1 + v.tag_size as int)));
                    assert(d.subrange(p2 as int, p2 + 1 + tag_size)[0] == tag_size);
                    assert(d.subrange(pos + 0int + 14 + (v.dims.encoding().len() as int), pos + 0int + 14 + (v.dims.encoding().len() as int) + (1 + v.tag_size as int))[0] == v.tag_size);
                    assert(p3 == p2 + 1 + tag_size);
                    assert(tag@ =~= v.tag@) by {
                        assert(d.subrange(p2 + 1, p2 + 1 + tag_size) =~= d.subrange(p2 as int, p3 as int).subrange(1, 1 + tag_size));
                        assert(counted(tag_size, tag@).subrange(1, 1 + tag_size) =~= tag@);
                        assert(d.subrange(pos + 0int + 14 + (v.dims.encoding().len() as int) + 1, pos + 0int + 14 + (v.dims.encoding().len() as int) + (1 + v.tag_size as int)) =~= d.subrange(pos + 0int + 14 + (v.dims.encoding().len() as int), pos + 0int + 14 + (v.dims.encoding().len() as int) + (1 + v.tag_size as int)).subrange(1, 0int + 14 + (v.dims.encoding().len() as int) + (1 + v.tag_size as int) - (0int + 14 + (v.dims.encoding().len() as int))));
                        assert(counted(v.tag_size, v.tag@).subrange(1, 0int + 14 + (v.dims.encoding().len() as int) + (1 + v.tag_size as int) - (0int + 14 + (v.dims.encoding().len() as int))) =~= v.tag@);
                    }
                    assert(e.subrange(0int + 14 + (v.dims.encoding().len() as int) + (1 + v.tag_size as int), 0int + 14 + (v.dims.encoding().len() as int) + (1 + v.tag_size as int) + (1 + v.name_size as int)) =~= counted(v.name_size, v.name@));
                    assert(d.subrange(pos + 0int + 14 + (v.dims.encoding().len() as int) + (1 + v.tag_size as int), pos + 0int + 14 + (v.dims.encoding().len() as int) + (1 + v.tag_size as int) + (1 + v.name_size as int)) =~= e.subrange(0int + 14 + (v.dims.encoding().len() as int) + (1 + v.tag_size as int), 0int + 14 + (v.dims.encoding().len() as int) + (1 + v.tag_size as int) + (1 + v.name_size as int)));
                    assert(d.subrange(pos + 0int + 14 + (v.dims.encoding().len() as int) + (1 + v.tag_size as int), pos + 0int + 14 + (v.dims.encoding().len() as int) + (1 + v.tag_size as int) + (1 + v.name_size as int))[0] == v.name_size);
                }
                }
                return Err(err);
            },
        };
        assert(d.subrange(p3 as int, p4 as int)[0] == name_size);
        assert(p4 == p3 + 1 + name_size);
        let v0 = Def2 { section, value, class, def_type, size, dims, tag_size, tag, name_size, name };
        assert(d.subrange(pos as int, p4 as int) =~= d.subrange(pos as int, p1 as int) + d.subrange(p1 as int, p2 as int) + d.subrange(p2 as int, p3 as int) + d.subrange(p3 as int, p4 as int));
        assert(d.subrange(pos as int, p4 as int) =~= v0.encoding());
        let end = p4;
        proof {
                assert forall|v: Def2| #[trigger] v.encodes_at(d, pos as int) && v.well_formed() implies v0.encoding() == v.encoding() && end == pos + v.encoding().len() by {
                    let e = v.encoding();
                    assert(d.subrange(pos as int, pos + e.len()) == e);
                    assert(e.subrange(0int, 0int + 14) =~= definition_head(v.section, v.value, v.class, v.def_type, v.size));
                    assert(d.subrange(pos + 0int, pos + 0int + 14) =~= e.subrange(0int, 0int + 14));
                    lemma_definition_head_injective((section, value, class, def_type, size), (v.section, v.value, v.class, v.def_type, v.size));
                    assert(e.subrange(0int + 14, 0int + 14 + (v.dims.encoding().len() as int)) =~= v.dims.encoding());
                    assert(d.subrange(pos + 0int + 14, pos + 0int + 14 + (v.dims.encoding().len() as int)) =~= e.subrange(0int + 14, 0int + 14 + (v.dims.encoding().len() as int)));
                    assert(v.dims.encodes_at(d, p1 as int));
                    assert(e.subrange(0int + 14 + (v.dims.encoding().len() as int), 0int + 14 + (v.dims.encoding().len() as int) + (1 + v.tag_size as int)) =~= counted(v.tag_size, v.tag@));
                    assert(d.subrange(pos + 0int + 14 + (v.dims.encoding().len() as int), pos + 0int + 14 + (v.dims.encoding().len() as int) + (1 + v.tag_size as int)) =~= e.subrange(0int + 14 + (v.dims.encoding().len() as int), 0int + 14 + (v.dims.encoding().len() as int) + (1 + v.tag_size as int)));
                    assert(d.subrange(p2 as int, p2 + 1 + tag_size)[0] == tag_size);
                    assert(d.subrange(pos + 0int + 14 + (v.dims.encoding().len() as int), pos + 0int + 14 + (v.dims.encoding().len() as int) + (1 + v.tag_size as int))[0] == v.tag_size);
                    assert(p3 == p2 + 1 + tag_size);
                    assert(tag@ =~= v.tag@) by {
                        assert(d.subrange(p2 + 1, p2 + 1 + tag_size) =~= d.subrange(p2 as int, p3 as int).subrange(1, 1 + tag_size));
                        assert(counted(tag_size, tag@).subrange(1, 1 + tag_size) =~= tag@);
                        assert(d.subrange(pos + 0int + 14 + (v.dims.encoding().len() as int) + 1, pos + 0int + 14 + (v.dims.encoding().len() as int) + (1 + v.tag_size as int)) =~= d.subrange(pos + 0int + 14 + (v.dims.encoding().len() as int), pos + 0int + 14 + (v.dims.encoding().len() as int) + (1 + v.tag_size as int)).subrange(1, 0int + 14 + (v.dims.encoding().len() as int) + (1 + v.tag_size as int) - (0int + 14 + (v.dims.encoding().len() as int))));
                        assert(counted(v.tag_size, v.tag@).subrange(1, 0int + 14 + (v.dims.encoding().len() as int) + (1 + v.tag_size as int) - (0int + 14 + (v.dims.encoding().len() as int))) =~= v.tag@);
                    }
                    assert(e.subrange(0int + 14 + (v.dims.encoding().len() as int) + (1 + v.tag_size as int), 0int + 14 + (v.dims.encoding().len() as int) + (1 + v.tag_size as int) + (1 + v.name_size as int)) =~= counted(v.name_size, v.name@));
                    assert(d.subrange(pos + 0int + 14 + (v.dims.encoding().len() as int) + (1 + v.tag_size as int), pos + 0int + 14 + (v.dims.encoding().len() as int) + (1 + v.tag_size as int) + (1 + v.name_size as int)) =~= e.subrange(0int + 14 + (v.dims.encoding().len() as int) + (1 + v.tag_size as int), 0int + 14 + (v.dims.encoding().len() as int) + (1 + v.tag_size as int) + (1 + v.name_size as int)));
                    assert(d.subrange(p3 as int, p3 + 1 + name_size)[0] == name_size);
                    assert(d.subrange(pos + 0int + 14 + (v.dims.encoding().len() as int) + (1 + v.tag_size as int), pos + 0int + 14 + (v.dims.encoding().len() as int) + (1 + v.tag_size as int) + (1 + v.name_size as int))[0] == v.name_size);
                    assert(p4 == p3 + 1 + name_size);
                    assert(name@ =~= v.name@) by {
                        assert(d.subrange(p3 + 1, p3 + 1 + name_size) =~= d.subrange(p3 as int, p4 as int).subrange(1, 1 + name_size));
                        assert(counted(name_size, name@).subrange(1, 1 + name_size) =~= name@);
                        assert(d.subrange(pos + 0int + 14 + (v.dims.encoding().len() as int) + (1 + v.tag_size as int) + 1, pos + 0int + 14 + (v.dims.encoding().len() as int) + (1 + v.tag_size as int) + (1 + v.name_size as int)) =~= d.subrange(pos + 0int + 14 + (v.dims.encoding().len() as int) + (1 + v.tag_size as int), pos + 0int + 14 + (v.dims.encoding().len() as int) + (1 + v.tag_size as int) + (1 + v.name_size as int)).subrange(1, 0int + 14 + (v.dims.encoding().len() as int) + (1 + v.tag_size as int) + (1 + v.name_size as int) - (0int + 14 + (v.dims.encoding().len() as int) + (1 + v.tag_size as int))));
                        assert(counted(v.name_size, v.name@).subrange(1, 0int + 14 + (v.dims.encoding().len() as int) + (1 + v.tag_size as int) + (1 + v.name_size as int) - (0int + 14 + (v.dims.encoding().len() as int) + (1 + v.tag_size as int))) =~= v.name@);
                    }
                    assert(v0.encoding() =~= v.encoding());
                }
        }
        Ok((v0, end))
    }

    /// Appends this record, without its section tag.
    pub fn write(&self, out: &mut Vec<u8>)
        ensures
            final(out)@ == old(out)@ + self.encoding(),
    {
        write_u16(out, self.section);
        write_u32(out, self.value);
        write_u16(out, self.class);
        write_u16(out, self.def_type);
        write_u32(out, self.size);
        self.dims.write(out);
        write_counted(out, self.tag_size, &self.tag);
        write_counted(out, self.name_size, &self.name);
        assert(out@ =~= old(out)@ + self.encoding());
    }

    /// The `tag` bytes as text, each invalid sequence replaced by U+FFFD.
    pub fn tag(&self) -> (r: String)
        ensures
            r@ == lossy_text(self.tag@),
            valid_utf8(self.tag@) ==> r@ == decode_utf8(self.tag@),
    {
        text_of(&self.tag)
    }

    /// The `name` bytes as text, each invalid sequence replaced by U+FFFD.
    pub fn name(&self) -> (r: String)
        ensures
            r@ == lossy_text(self.name@),
            valid_utf8(self.name@) ==> r@ == decode_utf8(self.name@),
    {
        text_of(&self.name)
    }
}

/// A tagged record of an object file.
#[derive(Debug, Clone, PartialEq)]
pub enum Section {
    /// End of the section stream (tag 0).
    NOP,
    /// Machine code (tag 2).
    Code(Code),
    /// Run at offset (tag 4).
    RunAtOffset(u16, u16),
    /// Switch to another section (tag 6).
    SectionSwitch(SectionSwitch),
    /// Uninitialized data of the given size in bytes (tag 8).
    BSS(u32),
    /// Relocation patch (tag 10).
    Patch(Patch),
    /// External symbol definition (tag 12).
    XDEF(XDEF),
    /// External symbol reference (tag 14).
    XREF(XREF),
    /// Section header (tag 16).
    LNKHeader(LNKHeader),
    /// Local symbol (tag 18).
    LocalSymbol(LocalSymbol),
    /// Group symbol (tag 20).
    GroupSymbol(GroupSymbol),
    /// File name (tag 28).
    Filename(Filename),
    /// Set MX info (tag 44).
    SetMXInfo(SetMXInfo),
    /// Processor type of the code that follows (tag 46).
    CPU(u8),
    /// External uninitialized data symbol (tag 48).
    XBSS(XBSS),
    /// Increment the source line number (tag 50).
    IncSLDLineNum(u16),
    /// Increment the source line number by a byte (tag 52).
    IncSLDLineNumByte(u16, u8),
    /// Set the source line number (tag 56).
    SetSLDLineNum(SetSLDLineNum),
    /// Set the source line number and file (tag 58).
    SetSLDLineNumFile(SetSLDLineNumFile),
    /// End of source line information (tag 60).
    EndSLDInfo(u16),
    /// Function start (tag 74).
    FunctionStart(FunctionStart),
    /// Function end (tag 76).
    FunctionEnd(FunctionEnd),
    /// Block start (tag 78).
    BlockStart(BlockStart),
    /// Block end (tag 80).
    BlockEnd(BlockEnd),
    /// Definition (tag 82).
    Def(Def),
    /// Extended definition (tag 84).
    Def2(Def2),
}

/// Tags that begin a section.
pub open spec fn is_section_tag(tag: u8) -> bool {
    tag == 0 || tag == 2 || tag == 4 || tag == 6 || tag == 8 || tag == 10 || tag == 12 || tag == 14 || tag == 16 || tag == 18 || tag == 20 || tag == 28 || tag == 44 || tag == 46 || tag == 48 || tag == 50 || tag == 52 || tag == 56 || tag == 58 || tag == 60 || tag == 74 || tag == 76 || tag == 78 || tag == 80 || tag == 82 || tag == 84
}

impl Section {
    /// The tag byte that begins this section.
    pub open spec fn tag(self) -> u8 {
        match self {
            Section::NOP => 0,
            Section::Code(_) => 2,
            Section::RunAtOffset(_, _) => 4,
            Section::SectionSwitch(_) => 6,
            Section::BSS(_) => 8,
            Section::Patch(_) => 10,
            Section::XDEF(_) => 12,
            Section::XREF(_) => 14,
            Section::LNKHeader(_) => 16,
            Section::LocalSymbol(_) => 18,
            Section::GroupSymbol(_) => 20,
            Section::Filename(_) => 28,
            Section::SetMXInfo(_) => 44,
            Section::CPU(_) => 46,
            Section::XBSS(_) => 48,
            Section::IncSLDLineNum(_) => 50,
            Section::IncSLDLineNumByte(_, _) => 52,
            Section::SetSLDLineNum(_) => 56,
            Section::SetSLDLineNumFile(_) => 58,
            Section::EndSLDInfo(_) => 60,
            Section::FunctionStart(_) => 74,
            Section::FunctionEnd(_) => 76,
            Section::BlockStart(_) => 78,
            Section::BlockEnd(_) => 80,
            Section::Def(_) => 82,
            Section::Def2(_) => 84,
        }
    }

    /// The bytes that store this section, its tag included.
    pub open spec fn encoding(self) -> Seq<u8> {
        seq![self.tag()] + match self {
            Section::NOP => Seq::empty(),
            Section::Code(a0) => a0.encoding(),
            Section::RunAtOffset(a0, a1) => le16(a0) + le16(a1),
            Section::SectionSwitch(a0) => a0.encoding(),
            Section::BSS(a0) => le32(a0),
            Section::Patch(a0) => a0.encoding(),
            Section::XDEF(a0) => a0.encoding(),
            Section::XREF(a0) => a0.encoding(),
            Section::LNKHeader(a0) => a0.encoding(),
            Section::LocalSymbol(a0) => a0.encoding(),
            Section::GroupSymbol(a0) => a0.encoding(),
            Section::Filename(a0) => a0.encoding(),
            Section::SetMXInfo(a0) => a0.encoding(),
            Section::CPU(a0) => seq![a0],
            Section::XBSS(a0) => a0.encoding(),
            Section::IncSLDLineNum(a0) => le16(a0),
            Section::IncSLDLineNumByte(a0, a1) => le16(a0) + seq![a1],
            Section::SetSLDLineNum(a0) => a0.encoding(),
            Section::SetSLDLineNumFile(a0) => a0.encoding(),
            Section::EndSLDInfo(a0) => le16(a0),
            Section::FunctionStart(a0) => a0.encoding(),
            Section::FunctionEnd(a0) => a0.encoding(),
            Section::BlockStart(a0) => a0.encoding(),
            Section::BlockEnd(a0) => a0.encoding(),
            Section::Def(a0) => a0.encoding(),
            Section::Def2(a0) => a0.encoding(),
        }
    }

    /// Every length field of the record counts the bytes that follow it.
    pub open spec fn well_formed(self) -> bool {
        match self {
            Section::Code(a0) => a0.well_formed(),
            Section::SectionSwitch(a0) => a0.well_formed(),
            Section::Patch(a0) => a0.well_formed(),
            Section::XDEF(a0) => a0.well_formed(),
            Section::XREF(a0) => a0.well_formed(),
            Section::LNKHeader(a0) => a0.well_formed(),
            Section::LocalSymbol(a0) => a0.well_formed(),
            Section::GroupSymbol(a0) => a0.well_formed(),
            Section::Filename(a0) => a0.well_formed(),
            Section::SetMXInfo(a0) => a0.well_formed(),
            Section::XBSS(a0) => a0.well_formed(),
            Section::SetSLDLineNum(a0) => a0.well_formed(),
            Section::SetSLDLineNumFile(a0) => a0.well_formed(),
            Section::FunctionStart(a0) => a0.well_formed(),
            Section::FunctionEnd(a0) => a0.well_formed(),
            Section::BlockStart(a0) => a0.well_formed(),
            Section::BlockEnd(a0) => a0.well_formed(),
            Section::Def(a0) => a0.well_formed(),
            Section::Def2(a0) => a0.well_formed(),
            _ => true,
        }
    }

    /// `data` holds the encoding of this section from `pos` on.
    pub open spec fn encodes_at(self, data: Seq<u8>, pos: int) -> bool {
        holds_at(data, pos, pos + self.encoding().len(), self.encoding())
    }

    /// Reads the section that begins at `pos`. It succeeds exactly when a
    /// well-formed section is stored there.
    pub fn read(data: &[u8], pos: usize) -> (r: Result<(Section, usize), DecodeError>)
        ensures
            r matches Ok((s, end)) ==> holds_at(data@, pos as int, end as int, s.encoding())
                && s.well_formed(),
            forall|s: Section|
                #[trigger] s.encodes_at(data@, pos as int) && s.well_formed() ==> (r matches Ok(
                    (x, end),
                ) && end == pos + s.encoding().len() && x.encoding() == s.encoding()),
            r matches Err(DecodeError::UnknownSectionTag(t)) ==> !is_section_tag(t)
                && pos < data@.len() && data@[pos as int] == t,
            r matches Err(e) ==> e is Truncated || e is UnknownSectionTag || e is UnknownExpressionTag
                || e is NestingTooDeep || e is UnknownDimension,
    {
        let ghost d = data@;
        if pos >= data.len() {
            proof {
                assert forall|s: Section| #[trigger] s.encodes_at(d, pos as int) && s.well_formed() implies false by {
                    assert(s.encoding().len() > 0);
                }
            }
            return Err(DecodeError::Truncated);
        }
        let tag = data[pos];
        match tag {
            0 => read_nop_section(data, pos),
            2 => read_code_section(data, pos),
            4 => read_runatoffset_section(data, pos),
            6 => read_sectionswitch_section(data, pos),
            8 => read_bss_section(data, pos),
            10 => read_patch_section(data, pos),
            12 => read_xdef_section(data, pos),
            14 => read_xref_section(data, pos),
            16 => read_lnkheader_section(data, pos),
            18 => read_localsymbol_section(data, pos),
            20 => read_groupsymbol_section(data, pos),
            28 => read_filename_section(data, pos),
            44 => read_setmxinfo_section(data, pos),
            46 => read_cpu_section(data, pos),
            48 => read_xbss_section(data, pos),
            50 => read_incsldlinenum_section(data, pos),
            52 => read_incsldlinenumbyte_section(data, pos),
            56 => read_setsldlinenum_section(data, pos),
            58 => read_setsldlinenumfile_section(data, pos),
            60 => read_endsldinfo_section(data, pos),
            74 => read_functionstart_section(data, pos),
            76 => read_functionend_section(data, pos),
            78 => read_blockstart_section(data, pos),
            80 => read_blockend_section(data, pos),
            82 => read_def_section(data, pos),
            84 => read_def2_section(data, pos),
            _ => {
                proof {
                    assert forall|s: Section| #[trigger] s.encodes_at(d, pos as int) && s.well_formed() implies false by {
                        assert(d.subrange(pos as int, pos + s.encoding().len())[0] == d[pos as int]);
                        assert(is_section_tag(s.tag()));
                    }
                }
                Err(DecodeError::UnknownSectionTag(tag))
            },
        }
    }

    /// Appends this section, its tag included.
    pub fn write(&self, out: &mut Vec<u8>)
        ensures
            final(out)@ == old(out)@ + self.encoding(),
    {
        match self {
            Section::NOP => {
                write_u8(out, 0);
            },
            Section::Code(a0) => {
                write_u8(out, 2);
                a0.write(out);
            },
            Section::RunAtOffset(a0, a1) => {
                write_u8(out, 4);
                write_u16(out, *a0);
                write_u16(out, *a1);
            },
            Section::SectionSwitch(a0) => {
                write_u8(out, 6);
                a0.write(out);
            },
            Section::BSS(a0) => {
                write_u8(out, 8);
                write_u32(out, *a0);
            },
            Section::Patch(a0) => {
                write_u8(out, 10);
                a0.write(out);
            },
            Section::XDEF(a0) => {
                write_u8(out, 12);
                a0.write(out);
            },
            Section::XREF(a0) => {
                write_u8(out, 14);
                a0.write(out);
            },
            Section::LNKHeader(a0) => {
                write_u8(out, 16);
                a0.write(out);
            },
            Section::LocalSymbol(a0) => {
                write_u8(out, 18);
                a0.write(out);
            },
            Section::GroupSymbol(a0) => {
                write_u8(out, 20);
                a0.write(out);
            },
            Section::Filename(a0) => {
                write_u8(out, 28);
                a0.write(out);
            },
            Section::SetMXInfo(a0) => {
                write_u8(out, 44);
                a0.write(out);
            },
            Section::CPU(a0) => {
                write_u8(out, 46);
                write_u8(out, *a0);
            },
            Section::XBSS(a0) => {
                write_u8(out, 48);
                a0.write(out);
            },
            Section::IncSLDLineNum(a0) => {
                write_u8(out, 50);
                write_u16(out, *a0);
            },
            Section::IncSLDLineNumByte(a0, a1) => {
                write_u8(out, 52);
                write_u16(out, *a0);
                write_u8(out, *a1);
            },
            Section::SetSLDLineNum(a0) => {
                write_u8(out, 56);
                a0.write(out);
            },
            Section::SetSLDLineNumFile(a0) => {
                write_u8(out, 58);
                a0.write(out);
            },
            Section::EndSLDInfo(a0) => {
                write_u8(out, 60);
                write_u16(out, *a0);
            },
            Section::FunctionStart(a0) => {
                write_u8(out, 74);
                a0.write(out);
            },
            Section::FunctionEnd(a0) => {
                write_u8(out, 76);
                a0.write(out);
            },
            Section::BlockStart(a0) => {
                write_u8(out, 78);
                a0.write(out);
            },
            Section::BlockEnd(a0) => {
                write_u8(out, 80);
                a0.write(out);
            },
            Section::Def(a0) => {
                write_u8(out, 82);
                a0.write(out);
            },
            Section::Def2(a0) => {
                write_u8(out, 84);
                a0.write(out);
            },
        }
        assert(out@ =~= old(out)@ + self.encoding());
    }

    /// This section is the end of the stream.
    pub fn is_nop(&self) -> (r: bool)
        ensures
            r == (*self is NOP),
    {
        match self {
            Section::NOP => true,
            _ => false,
        }
    }
}

/// Reads a section whose tag, at `pos`, is 0.
fn read_nop_section(data: &[u8], pos: usize) -> (r: Result<(Section, usize), DecodeError>)
    requires
        pos < data@.len(),
        data@[pos as int] == 0,
    ensures
        r matches Ok((s, end)) ==> holds_at(data@, pos as int, end as int, s.encoding())
            && s.well_formed(),
        forall|s: Section|
            #[trigger] s.encodes_at(data@, pos as int) && s.well_formed() ==> (r matches Ok((x, end))
                && end == pos + s.encoding().len() && x.encoding() == s.encoding()),
        r matches Err(e) ==> e is Truncated || e is UnknownExpressionTag || e is NestingTooDeep
            || e is UnknownDimension,
{
    let ghost d = data@;
    let tag = data[pos];
    let p = pos + 1;
    assert(d.subrange(pos as int, p as int) =~= seq![tag]);
    proof {
        assert forall|s: Section| #[trigger] s.encodes_at(d, pos as int) implies s.tag() == tag by {
            assert(d.subrange(pos as int, pos + s.encoding().len())[0] == d[pos as int]);
        }
    }
    let x = Section::NOP;
    let end = p;
    assert(d.subrange(pos as int, end as int) =~= x.encoding());
    proof {
        assert forall|s: Section| #[trigger] s.encodes_at(d, pos as int) && s.well_formed() implies x.encoding() == s.encoding() && end == pos + s.encoding().len() by {
            assert(s is NOP);
        }
    }
    Ok((x, end))
}

/// Reads a section whose tag, at `pos`, is 2.
fn read_code_section(data: &[u8], pos: usize) -> (r: Result<(Section, usize), DecodeError>)
    requires
        pos < data@.len(),
        data@[pos as int] == 2,
    ensures
        r matches Ok((s, end)) ==> holds_at(data@, pos as int, end as int, s.encoding())
            && s.well_formed(),
        forall|s: Section|
            #[trigger] s.encodes_at(data@, pos as int) && s.well_formed() ==> (r matches Ok((x, end))
                && end == pos + s.encoding().len() && x.encoding() == s.encoding()),
        r matches Err(e) ==> e is Truncated || e is UnknownExpressionTag || e is NestingTooDeep
            || e is UnknownDimension,
{
    let ghost d = data@;
    let tag = data[pos];
    let p = pos + 1;
    assert(d.subrange(pos as int, p as int) =~= seq![tag]);
    proof {
        assert forall|s: Section| #[trigger] s.encodes_at(d, pos as int) implies s.tag() == tag by {
            assert(d.subrange(pos as int, pos + s.encoding().len())[0] == d[pos as int]);
        }
    }
    let (a0, q0) = match Code::read(data, p) {
        Ok(x) => x,
        Err(err) => {
            proof {
                assert forall|s: Section| #[trigger] s.encodes_at(d, pos as int) && s.well_formed() implies false by {
                    if let Section::Code(b0) = s {
                        let e = s.encoding();
                        assert(d.subrange(pos as int, pos + e.len()) == e);
                        assert(e.subrange(1int, 1int + b0.encoding().len()) =~= b0.encoding());
                        assert(d.subrange(pos + 1int, pos + 1int + b0.encoding().len()) =~= e.subrange(1int, 1int + b0.encoding().len()));
                        assert(b0.encodes_at(d, p as int));
                    }
                }
            }
            return Err(err);
        },
    };
    let x = Section::Code(a0);
    let end = q0;
    assert(d.subrange(pos as int, end as int) =~= d.subrange(pos as int, p as int) + d.subrange(p as int, q0 as int));
    assert(d.subrange(pos as int, end as int) =~= x.encoding());
    proof {
        assert forall|s: Section| #[trigger] s.encodes_at(d, pos as int) && s.well_formed() implies x.encoding() == s.encoding() && end == pos + s.encoding().len() by {
            if let Section::Code(b0) = s {
                let e = s.encoding();
                assert(d.subrange(pos as int, pos + e.len()) == e);
                assert(e.subrange(1int, 1int + b0.encoding().len()) =~= b0.encoding());
                assert(d.subrange(pos + 1int, pos + 1int + b0.encoding().len()) =~= e.subrange(1int, 1int + b0.encoding().len()));
                assert(b0.encodes_at(d, p as int));
                assert(x.encoding() =~= s.encoding());
            }
        }
    }
    Ok((x, end))
}

/// Reads a section whose tag, at `pos`, is 4.
fn read_runatoffset_section(data: &[u8], pos: usize) -> (r: Result<(Section, usize), DecodeError>)
    requires
        pos < data@.len(),
        data@[pos as int] == 4,
    ensures
        r matches Ok((s, end)) ==> holds_at(data@, pos as int, end as int, s.encoding())
            && s.well_formed(),
        forall|s: Section|
            #[trigger] s.encodes_at(data@, pos as int) && s.well_formed() ==> (r matches Ok((x, end))
                && end == pos + s.encoding().len() && x.encoding() == s.encoding()),
        r matches Err(e) ==> e is Truncated || e is UnknownExpressionTag || e is NestingTooDeep
            || e is UnknownDimension,
{
    let ghost d = data@;
    let tag = data[pos];
    let p = pos + 1;
    assert(d.subrange(pos as int, p as int) =~= seq![tag]);
    proof {
        assert forall|s: Section| #[trigger] s.encodes_at(d, pos as int) implies s.tag() == tag by {
            assert(d.subrange(pos as int, pos + s.encoding().len())[0] == d[pos as int]);
        }
    }
    let (a0, q0) = match read_u16(data, p) {
        Ok(x) => x,
        Err(err) => {
            proof {
                assert forall|s: Section| #[trigger] s.encodes_at(d, pos as int) && s.well_formed() implies false by {
                    if let Section::RunAtOffset(b0, b1) = s {
                        let e = s.encoding();
                        assert(d.subrange(pos as int, pos + e.len()) == e);
                        assert(e.subrange(1int, 1int + 2) =~= le16(b0));
                        assert(d.subrange(pos + 1int, pos + 1int + 2) =~= e.subrange(1int, 1int + 2));
                    }
                }
            }
            return Err(err);
        },
    };
    let (a1, q1) = match read_u16(data, q0) {
        Ok(x) => x,
        Err(err) => {
            proof {
                assert forall|s: Section| #[trigger] s.encodes_at(d, pos as int) && s.well_formed() implies false by {
                    if let Section::RunAtOffset(b0, b1) = s {
                        let e = s.encoding();
                        assert(d.subrange(pos as int, pos + e.len()) == e);
                        assert(e.subrange(1int, 1int + 2) =~= le16(b0));
                        assert(d.subrange(pos + 1int, pos + 1int + 2) =~= e.subrange(1int, 1int + 2));
                        lemma_le16_injective(a0, b0);
                        assert(e.subrange(1int + 2, 1int + 2 + 2) =~= le16(b1));
                        assert(d.subrange(pos + 1int + 2, pos + 1int + 2 + 2) =~= e.subrange(1int + 2, 1int + 2 + 2));
                    }
                }
            }
            return Err(err);
        },
    };
    let x = Section::RunAtOffset(a0, a1);
    let end = q1;
    assert(d.subrange(pos as int, end as int) =~= d.subrange(pos as int, p as int) + d.subrange(p as int, q0 as int) + d.subrange(q0 as int, q1 as int));
    assert(d.subrange(pos as int, end as int) =~= x.encoding());
    proof {
        assert forall|s: Section| #[trigger] s.encodes_at(d, pos as int) && s.well_formed() implies x.encoding() == s.encoding() && end == pos + s.encoding().len() by {
            if let Section::RunAtOffset(b0, b1) = s {
                let e = s.encoding();
                assert(d.subrange(pos as int, pos + e.len()) == e);
                assert(e.subrange(1int, 1int + 2) =~= le16(b0));
                assert(d.subrange(pos + 1int, pos + 1int + 2) =~= e.subrange(1int, 1int + 2));
                lemma_le16_injective(a0, b0);
                assert(e.subrange(1int + 2, 1int + 2 + 2) =~= le16(b1));
                assert(d.subrange(pos + 1int + 2, pos + 1int + 2 + 2) =~= e.subrange(1int + 2, 1int + 2 + 2));
                lemma_le16_injective(a1, b1);
                assert(x.encoding() =~= s.encoding());
            }
        }
    }
    Ok((x, end))
}

/// Reads a section whose tag, at `pos`, is 6.
fn read_sectionswitch_section(data: &[u8], pos: usize) -> (r: Result<(Section, usize), DecodeError>)
    requires
        pos < data@.len(),
        data@[pos as int] == 6,
    ensures
        r matches Ok((s, end)) ==> holds_at(data@, pos as int, end as int, s.encoding())
            && s.well_formed(),
        forall|s: Section|
            #[trigger] s.encodes_at(data@, pos as int) && s.well_formed() ==> (r matches Ok((x, end))
                && end == pos + s.encoding().len() && x.encoding() == s.encoding()),
        r matches Err(e) ==> e is Truncated || e is UnknownExpressionTag || e is NestingTooDeep
            || e is UnknownDimension,
{
    let ghost d = data@;
    let tag = data[pos];
    let p = pos + 1;
    assert(d.subrange(pos as int, p as int) =~= seq![tag]);
    proof {
        assert forall|s: Section| #[trigger] s.encodes_at(d, pos as int) implies s.tag() == tag by {
            assert(d.subrange(pos as int, pos + s.encoding().len())[0] == d[pos as int]);
        }
    }
    let (a0, q0) = match SectionSwitch::read(data, p) {
        Ok(x) => x,
        Err(err) => {
            proof {
                assert forall|s: Section| #[trigger] s.encodes_at(d, pos as int) && s.well_formed() implies false by {
                    if let Section::SectionSwitch(b0) = s {
                        let e = s.encoding();
                        assert(d.subrange(pos as int, pos + e.len()) == e);
                        assert(e.subrange(1int, 1int + b0.encoding().len()) =~= b0.encoding());
                        assert(d.subrange(pos + 1int, pos + 1int + b0.encoding().len()) =~= e.subrange(1int, 1int + b0.encoding().len()));
                        assert(b0.encodes_at(d, p as int));
                    }
                }
            }
            return Err(err);
        },
    };
    let x = Section::SectionSwitch(a0);
    let end = q0;
    assert(d.subrange(pos as int, end as int) =~= d.subrange(pos as int, p as int) + d.subrange(p as int, q0 as int));
    assert(d.subrange(pos as int, end as int) =~= x.encoding());
    proof {
        assert forall|s: Section| #[trigger] s.encodes_at(d, pos as int) && s.well_formed() implies x.encoding() == s.encoding() && end == pos + s.encoding().len() by {
            if let Section::SectionSwitch(b0) = s {
                let e = s.encoding();
                assert(d.subrange(pos as int, pos + e.len()) == e);
                assert(e.subrange(1int, 1int + b0.encoding().len()) =~= b0.encoding());
                assert(d.subrange(pos + 1int, pos + 1int + b0.encoding().len()) =~= e.subrange(1int, 1int + b0.encoding().len()));
                assert(b0.encodes_at(d, p as int));
                assert(x.encoding() =~= s.encoding());
            }
        }
    }
    Ok((x, end))
}

/// Reads a section whose tag, at `pos`, is 8.
fn read_bss_section(data: &[u8], pos: usize) -> (r: Result<(Section, usize), DecodeError>)
    requires
        pos < data@.len(),
        data@[pos as int] == 8,
    ensures
        r matches Ok((s, end)) ==> holds_at(data@, pos as int, end as int, s.encoding())
            && s.well_formed(),
        forall|s: Section|
            #[trigger] s.encodes_at(data@, pos as int) && s.well_formed() ==> (r matches Ok((x, end))
                && end == pos + s.encoding().len() && x.encoding() == s.encoding()),
        r matches Err(e) ==> e is Truncated || e is UnknownExpressionTag || e is NestingTooDeep
            || e is UnknownDimension,
{
    let ghost d = data@;
    let tag = data[pos];
    let p = pos + 1;
    assert(d.subrange(pos as int, p as int) =~= seq![tag]);
    proof {
        assert forall|s: Section| #[trigger] s.encodes_at(d, pos as int) implies s.tag() == tag by {
            assert(d.subrange(pos as int, pos + s.encoding().len())[0] == d[pos as int]);
        }
    }
    let (a0, q0) = match read_u32(data, p) {
        Ok(x) => x,
        Err(err) => {
            proof {
                assert forall|s: Section| #[trigger] s.encodes_at(d, pos as int) && s.well_formed() implies false by {
                    if let Section::BSS(b0) = s {
                        let e = s.encoding();
                        assert(d.subrange(pos as int, pos + e.len()) == e);
                        assert(e.subrange(1int, 1int + 4) =~= le32(b0));
                        assert(d.subrange(pos + 1int, pos + 1int + 4) =~= e.subrange(1int, 1int + 4));
                    }
                }
            }
            return Err(err);
        },
    };
    let x = Section::BSS(a0);
    let end = q0;
    assert(d.subrange(pos as int, end as int) =~= d.subrange(pos as int, p as int) + d.subrange(p as int, q0 as int));
    assert(d.subrange(pos as int, end as int) =~= x.encoding());
    proof {
        assert forall|s: Section| #[trigger] s.encodes_at(d, pos as int) && s.well_formed() implies x.encoding() == s.encoding() && end == pos + s.encoding().len() by {
            if let Section::BSS(b0) = s {
                let e = s.encoding();
                assert(d.subrange(pos as int, pos + e.len()) == e);
                assert(e.subrange(1int, 1int + 4) =~= le32(b0));
                assert(d.subrange(pos + 1int, pos + 1int + 4) =~= e.subrange(1int, 1int + 4));
                lemma_le32_injective(a0, b0);
                assert(x.encoding() =~= s.encoding());
            }
        }
    }
    Ok((x, end))
}

/// Reads a section whose tag, at `pos`, is 10.
fn read_patch_section(data: &[u8], pos: usize) -> (r: Result<(Section, usize), DecodeError>)
    requires
        pos < data@.len(),
        data@[pos as int] == 10,
    ensures
        r matches Ok((s, end)) ==> holds_at(data@, pos as int, end as int, s.encoding())
            && s.well_formed(),
        forall|s: Section|
            #[trigger] s.encodes_at(data@, pos as int) && s.well_formed() ==> (r matches Ok((x, end))
                && end == pos + s.encoding().len() && x.encoding() == s.encoding()),
        r matches Err(e) ==> e is Truncated || e is UnknownExpressionTag || e is NestingTooDeep
            || e is UnknownDimension,
{
    let ghost d = data@;
    let tag = data[pos];
    let p = pos + 1;
    assert(d.subrange(pos as int, p as int) =~= seq![tag]);
    proof {
        assert forall|s: Section| #[trigger] s.encodes_at(d, pos as int) implies s.tag() == tag by {
            assert(d.subrange(pos as int, pos + s.encoding().len())[0] == d[pos as int]);
        }
    }
    let (a0, q0) = match Patch::read(data, p) {
        Ok(x) => x,
        Err(err) => {
            proof {
                assert forall|s: Section| #[trigger] s.encodes_at(d, pos as int) && s.well_formed() implies false by {
                    if let Section::Patch(b0) = s {
                        let e = s.encoding();
                        assert(d.subrange(pos as int, pos + e.len()) == e);
                        assert(e.subrange(1int, 1int + b0.encoding().len()) =~= b0.encoding());
                        assert(d.subrange(pos + 1int, pos + 1int + b0.encoding().len()) =~= e.subrange(1int, 1int + b0.encoding().len()));
                        assert(b0.encodes_at(d, p as int));
                    }
                }
            }
            return Err(err);
        },
    };
    let x = Section::Patch(a0);
    let end = q0;
    assert(d.subrange(pos as int, end as int) =~= d.subrange(pos as int, p as int) + d.subrange(p as int, q0 as int));
    assert(d.subrange(pos as int, end as int) =~= x.encoding());
    proof {
        assert forall|s: Section| #[trigger] s.encodes_at(d, pos as int) && s.well_formed() implies x.encoding() == s.encoding() && end == pos + s.encoding().len() by {
            if let Section::Patch(b0) = s {
                let e = s.encoding();
                assert(d.subrange(pos as int, pos + e.len()) == e);
                assert(e.subrange(1int, 1int + b0.encoding().len()) =~= b0.encoding());
                assert(d.subrange(pos + 1int, pos + 1int + b0.encoding().len()) =~= e.subrange(1int, 1int + b0.encoding().len()));
                assert(b0.encodes_at(d, p as int));
                assert(x.encoding() =~= s.encoding());
            }
        }
    }
    Ok((x, end))
}

/// Reads a section whose tag, at `pos`, is 12.
#[verifier::rlimit(100)]
fn read_xdef_section(data: &[u8], pos: usize) -> (r: Result<(Section, usize), DecodeError>)
    requires
        pos < data@.len(),
        data@[pos as int] == 12,
    ensures
        r matches Ok((s, end)) ==> holds_at(data@, pos as int, end as int, s.encoding())
            && s.well_formed(),
        forall|s: Section|
            #[trigger] s.encodes_at(data@, pos as int) && s.well_formed() ==> (r matches Ok((x, end))
                && end == pos + s.encoding().len() && x.encoding() == s.encoding()),
        r matches Err(e) ==> e is Truncated || e is UnknownExpressionTag || e is NestingTooDeep
            || e is UnknownDimension,
{
    let ghost d = data@;
    let tag = data[pos];
    let p = pos + 1;
    assert(d.subrange(pos as int, p as int) =~= seq![tag]);
    proof {
        assert forall|s: Section| #[trigger] s.encodes_at(d, pos as int) implies s.tag() == tag by {
            assert(d.subrange(pos as int, pos + s.encoding().len())[0] == d[pos as int]);
        }
    }
    let (a0, q0) = match XDEF::read(data, p) {
        Ok(x) => x,
        Err(err) => {
            proof {
                assert forall|s: Section| #[trigger] s.encodes_at(d, pos as int) && s.well_formed() implies false by {
                    if let Section::XDEF(b0) = s {
                        let e = s.encoding();
                        assert(d.subrange(pos as int, pos + e.len()) == e);
                        assert(e.subrange(1int, 1int + b0.encoding().len()) =~= b0.encoding());
                        assert(d.subrange(pos + 1int, pos + 1int + b0.encoding().len()) =~= e.subrange(1int, 1int + b0.encoding().len()));
                        assert(b0.encodes_at(d, p as int));
                    }
                }
            }
            return Err(err);
        },
    };
    let x = Section::XDEF(a0);
    let end = q0;
    assert(d.subrange(pos as int, end as int) =~= d.subrange(pos as int, p as int) + d.subrange(p as int, q0 as int));
    assert(d.subrange(pos as int, end as int) =~= x.encoding());
    proof {
        assert forall|s: Section| #[trigger] s.encodes_at(d, pos as int) && s.well_formed() implies x.encoding() == s.encoding() && end == pos + s.encoding().len() by {
            if let Section::XDEF(b0) = s {
                let e = s.encoding();
                assert(d.subrange(pos as int, pos + e.len()) == e);
                assert(e.subrange(1int, 1int + b0.encoding().len()) =~= b0.encoding());
                assert(d.subrange(pos + 1int, pos + 1int + b0.encoding().len()) =~= e.subrange(1int, 1int + b0.encoding().len()));
                assert(b0.encodes_at(d, p as int));
                assert(x.encoding() =~= s.encoding());
            }
        }
    }
    Ok((x, end))
}

/// Reads a section whose tag, at `pos`, is 14.
fn read_xref_section(data: &[u8], pos: usize) -> (r: Result<(Section, usize), DecodeError>)
    requires
        pos < data@.len(),
        data@[pos as int] == 14,
    ensures
        r matches Ok((s, end)) ==> holds_at(data@, pos as int, end as int, s.encoding())
            && s.well_formed(),
        forall|s: Section|
            #[trigger] s.encodes_at(data@, pos as int) && s.well_formed() ==> (r matches Ok((x, end))
                && end == pos + s.encoding().len() && x.encoding() == s.encoding()),
        r matches Err(e) ==> e is Truncated || e is UnknownExpressionTag || e is NestingTooDeep
            || e is UnknownDimension,
{
    let ghost d = data@;
    let tag = data[pos];
    let p = pos + 1;
    assert(d.subrange(pos as int, p as int) =~= seq![tag]);
    proof {
        assert forall|s: Section| #[trigger] s.encodes_at(d, pos as int) implies s.tag() == tag by {
            assert(d.subrange(pos as int, pos + s.encoding().len())[0] == d[pos as int]);
        }
    }
    let (a0, q0) = match XREF::read(data, p) {
        Ok(x) => x,
        Err(err) => {
            proof {
                assert forall|s: Section| #[trigger] s.encodes_at(d, pos as int) && s.well_formed() implies false by {
                    if let Section::XREF(b0) = s {
                        let e = s.encoding();
                        assert(d.subrange(pos as int, pos + e.len()) == e);
                        assert(e.subrange(1int, 1int + b0.encoding().len()) =~= b0.encoding());
                        assert(d.subrange(pos + 1int, pos + 1int + b0.encoding().len()) =~= e.subrange(1int, 1int + b0.encoding().len()));
                        assert(b0.encodes_at(d, p as int));
                    }
                }
            }
            return Err(err);
        },
    };
    let x = Section::XREF(a0);
    let end = q0;
    assert(d.subrange(pos as int, end as int) =~= d.subrange(pos as int, p as int) + d.subrange(p as int, q0 as int));
    assert(d.subrange(pos as int, end as int) =~= x.encoding());
    proof {
        assert forall|s: Section| #[trigger] s.encodes_at(d, pos as int) && s.well_formed() implies x.encoding() == s.encoding() && end == pos + s.encoding().len() by {
            if let Section::XREF(b0) = s {
                let e = s.encoding();
                assert(d.subrange(pos as int, pos + e.len()) == e);
                assert(e.subrange(1int, 1int + b0.encoding().len()) =~= b0.encoding());
                assert(d.subrange(pos + 1int, pos + 1int + b0.encoding().len()) =~= e.subrange(1int, 1int + b0.encoding().len()));
                assert(b0.encodes_at(d, p as int));
                assert(x.encoding() =~= s.encoding());
            }
        }
    }
    Ok((x, end))
}

/// Reads a section whose tag, at `pos`, is 16.
fn read_lnkheader_section(data: &[u8], pos: usize) -> (r: Result<(Section, usize), DecodeError>)
    requires
        pos < data@.len(),
        data@[pos as int] == 16,
    ensures
        r matches Ok((s, end)) ==> holds_at(data@, pos as int, end as int, s.encoding())
            && s.well_formed(),
        forall|s: Section|
            #[trigger] s.encodes_at(data@, pos as int) && s.well_formed() ==> (r matches Ok((x, end))
                && end == pos + s.encoding().len() && x.encoding() == s.encoding()),
        r matches Err(e) ==> e is Truncated || e is UnknownExpressionTag || e is NestingTooDeep
            || e is UnknownDimension,
{
    let ghost d = data@;
    let tag = data[pos];
    let p = pos + 1;
    assert(d.subrange(pos as int, p as int) =~= seq![tag]);
    proof {
        assert forall|s: Section| #[trigger] s.encodes_at(d, pos as int) implies s.tag() == tag by {
            assert(d.subrange(pos as int, pos + s.encoding().len())[0] == d[pos as int]);
        }
    }
    let (a0, q0) = match LNKHeader::read(data, p) {
        Ok(x) => x,
        Err(err) => {
            proof {
                assert forall|s: Section| #[trigger] s.encodes_at(d, pos as int) && s.well_formed() implies false by {
                    if let Section::LNKHeader(b0) = s {
                        let e = s.encoding();
                        assert(d.subrange(pos as int, pos + e.len()) == e);
                        assert(e.subrange(1int, 1int + b0.encoding().len()) =~= b0.encoding());
                        assert(d.subrange(pos + 1int, pos + 1int + b0.encoding().len()) =~= e.subrange(1int, 1int + b0.encoding().len()));
                        assert(b0.encodes_at(d, p as int));
                    }
                }
            }
            return Err(err);
        },
    };
    let x = Section::LNKHeader(a0);
    let end = q0;
    assert(d.subrange(pos as int, end as int) =~= d.subrange(pos as int, p as int) + d.subrange(p as int, q0 as int));
    assert(d.subrange(pos as int, end as int) =~= x.encoding());
    proof {
        assert forall|s: Section| #[trigger] s.encodes_at(d, pos as int) && s.well_formed() implies x.encoding() == s.encoding() && end == pos + s.encoding().len() by {
            if let Section::LNKHeader(b0) = s {
                let e = s.encoding();
                assert(d.subrange(pos as int, pos + e.len()) == e);
                assert(e.subrange(1int, 1int + b0.encoding().len()) =~= b0.encoding());
                assert(d.subrange(pos + 1int, pos + 1int + b0.encoding().len()) =~= e.subrange(1int, 1int + b0.encoding().len()));
                assert(b0.encodes_at(d, p as int));
                assert(x.encoding() =~= s.encoding());
            }
        }
    }
    Ok((x, end))
}

/// Reads a section whose tag, at `pos`, is 18.
fn read_localsymbol_section(data: &[u8], pos: usize) -> (r: Result<(Section, usize), DecodeError>)
    requires
        pos < data@.len(),
        data@[pos as int] == 18,
    ensures
        r matches Ok((s, end)) ==> holds_at(data@, pos as int, end as int, s.encoding())
            && s.well_formed(),
        forall|s: Section|
            #[trigger] s.encodes_at(data@, pos as int) && s.well_formed() ==> (r matches Ok((x, end))
                && end == pos + s.encoding().len() && x.encoding() == s.encoding()),
        r matches Err(e) ==> e is Truncated || e is UnknownExpressionTag || e is NestingTooDeep
            || e is UnknownDimension,
{
    let ghost d = data@;
    let tag = data[pos];
    let p = pos + 1;
    assert(d.subrange(pos as int, p as int) =~= seq![tag]);
    proof {
        assert forall|s: Section| #[trigger] s.encodes_at(d, pos as int) implies s.tag() == tag by {
            assert(d.subrange(pos as int, pos + s.encoding().len())[0] == d[pos as int]);
        }
    }
    let (a0, q0) = match LocalSymbol::read(data, p) {
        Ok(x) => x,
        Err(err) => {
            proof {
                assert forall|s: Section| #[trigger] s.encodes_at(d, pos as int) && s.well_formed() implies false by {
                    if let Section::LocalSymbol(b0) = s {
                        let e = s.encoding();
                        assert(d.subrange(pos as int, pos + e.len()) == e);
                        assert(e.subrange(1int, 1int + b0.encoding().len()) =~= b0.encoding());
                        assert(d.subrange(pos + 1int, pos + 1int + b0.encoding().len()) =~= e.subrange(1int, 1int + b0.encoding().len()));
                        assert(b0.encodes_at(d, p as int));
                    }
                }
            }
            return Err(err);
        },
    };
    let x = Section::LocalSymbol(a0);
    let end = q0;
    assert(d.subrange(pos as int, end as int) =~= d.subrange(pos as int, p as int) + d.subrange(p as int, q0 as int));
    assert(d.subrange(pos as int, end as int) =~= x.encoding());
    proof {
        assert forall|s: Section| #[trigger] s.encodes_at(d, pos as int) && s.well_formed() implies x.encoding() == s.encoding() && end == pos + s.encoding().len() by {
            if let Section::LocalSymbol(b0) = s {
                let e = s.encoding();
                assert(d.subrange(pos as int, pos + e.len()) == e);
                assert(e.subrange(1int, 1int + b0.encoding().len()) =~= b0.encoding());
                assert(d.subrange(pos + 1int, pos + 1int + b0.encoding().len()) =~= e.subrange(1int, 1int + b0.encoding().len()));
                assert(b0.encodes_at(d, p as int));
                assert(x.encoding() =~= s.encoding());
            }
        }
    }
    Ok((x, end))
}

/// Reads a section whose tag, at `pos`, is 20.
fn read_groupsymbol_section(data: &[u8], pos: usize) -> (r: Result<(Section, usize), DecodeError>)
    requires
        pos < data@.len(),
        data@[pos as int] == 20,
    ensures
        r matches Ok((s, end)) ==> holds_at(data@, pos as int, end as int, s.encoding())
            && s.well_formed(),
        forall|s: Section|
            #[trigger] s.encodes_at(data@, pos as int) && s.well_formed() ==> (r matches Ok((x, end))
                && end == pos + s.encoding().len() && x.encoding() == s.encoding()),
        r matches Err(e) ==> e is Truncated || e is UnknownExpressionTag || e is NestingTooDeep
            || e is UnknownDimension,
{
    let ghost d = data@;
    let tag = data[pos];
    let p = pos + 1;
    assert(d.subrange(pos as int, p as int) =~= seq![tag]);
    proof {
        assert forall|s: Section| #[trigger] s.encodes_at(d, pos as int) implies s.tag() == tag by {
            assert(d.subrange(pos as int, pos + s.encoding().len())[0] == d[pos as int]);
        }
    }
    let (a0, q0) = match GroupSymbol::read(data, p) {
        Ok(x) => x,
        Err(err) => {
            proof {
                assert forall|s: Section| #[trigger] s.encodes_at(d, pos as int) && s.well_formed() implies false by {
                    if let Section::GroupSymbol(b0) = s {
                        let e = s.encoding();
                        assert(d.subrange(pos as int, pos + e.len()) == e);
                        assert(e.subrange(1int, 1int + b0.encoding().len()) =~= b0.encoding());
                        assert(d.subrange(pos + 1int, pos + 1int + b0.encoding().len()) =~= e.subrange(1int, 1int + b0.encoding().len()));
                        assert(b0.encodes_at(d, p as int));
                    }
                }
            }
            return Err(err);
        },
    };
    let x = Section::GroupSymbol(a0);
    let end = q0;
    assert(d.subrange(pos as int, end as int) =~= d.subrange(pos as int, p as int) + d.subrange(p as int, q0 as int));
    assert(d.subrange(pos as int, end as int) =~= x.encoding());
    proof {
        assert forall|s: Section| #[trigger] s.encodes_at(d, pos as int) && s.well_formed() implies x.encoding() == s.encoding() && end == pos + s.encoding().len() by {
            if let Section::GroupSymbol(b0) = s {
                let e = s.encoding();
                assert(d.subrange(pos as int, pos + e.len()) == e);
                assert(e.subrange(1int, 1int + b0.encoding().len()) =~= b0.encoding());
                assert(d.subrange(pos + 1int, pos + 1int + b0.encoding().len()) =~= e.subrange(1int, 1int + b0.encoding().len()));
                assert(b0.encodes_at(d, p as int));
                assert(x.encoding() =~= s.encoding());
            }
        }
    }
    Ok((x, end))
}

/// Reads a section whose tag, at `pos`, is 28.
fn read_filename_section(data: &[u8], pos: usize) -> (r: Result<(Section, usize), DecodeError>)
    requires
        pos < data@.len(),
        data@[pos as int] == 28,
    ensures
        r matches Ok((s, end)) ==> holds_at(data@, pos as int, end as int, s.encoding())
            && s.well_formed(),
        forall|s: Section|
            #[trigger] s.encodes_at(data@, pos as int) && s.well_formed() ==> (r matches Ok((x, end))
                && end == pos + s.encoding().len() && x.encoding() == s.encoding()),
        r matches Err(e) ==> e is Truncated || e is UnknownExpressionTag || e is NestingTooDeep
            || e is UnknownDimension,
{
    let ghost d = data@;
    let tag = data[pos];
    let p = pos + 1;
    assert(d.subrange(pos as int, p as int) =~= seq![tag]);
    proof {
        assert forall|s: Section| #[trigger] s.encodes_at(d, pos as int) implies s.tag() == tag by {
            assert(d.subrange(pos as int, pos + s.encoding().len())[0] == d[pos as int]);
        }
    }
    let (a0, q0) = match Filename::read(data, p) {
        Ok(x) => x,
        Err(err) => {
            proof {
                assert forall|s: Section| #[trigger] s.encodes_at(d, pos as int) && s.well_formed() implies false by {
                    if let Section::Filename(b0) = s {
                        let e = s.encoding();
                        assert(d.subrange(pos as int, pos + e.len()) == e);
                        assert(e.subrange(1int, 1int + b0.encoding().len()) =~= b0.encoding());
                        assert(d.subrange(pos + 1int, pos + 1int + b0.encoding().len()) =~= e.subrange(1int, 1int + b0.encoding().len()));
                        assert(b0.encodes_at(d, p as int));
                    }
                }
            }
            return Err(err);
        },
    };
    let x = Section::Filename(a0);
    let end = q0;
    assert(d.subrange(pos as int, end as int) =~= d.subrange(pos as int, p as int) + d.subrange(p as int, q0 as int));
    assert(d.subrange(pos as int, end as int) =~= x.encoding());
    proof {
        assert forall|s: Section| #[trigger] s.encodes_at(d, pos as int) && s.well_formed() implies x.encoding() == s.encoding() && end == pos + s.encoding().len() by {
            if let Section::Filename(b0) = s {
                let e = s.encoding();
                assert(d.subrange(pos as int, pos + e.len()) == e);
                assert(e.subrange(1int, 1int + b0.encoding().len()) =~= b0.encoding());
                assert(d.subrange(pos + 1int, pos + 1int + b0.encoding().len()) =~= e.subrange(1int, 1int + b0.encoding().len()));
                assert(b0.encodes_at(d, p as int));
                assert(x.encoding() =~= s.encoding());
            }
        }
    }
    Ok((x, end))
}

/// Reads a section whose tag, at `pos`, is 44.
fn read_setmxinfo_section(data: &[u8], pos: usize) -> (r: Result<(Section, usize), DecodeError>)
    requires
        pos < data@.len(),
        data@[pos as int] == 44,
    ensures
        r matches Ok((s, end)) ==> holds_at(data@, pos as int, end as int, s.encoding())
            && s.well_formed(),
        forall|s: Section|
            #[trigger] s.encodes_at(data@, pos as int) && s.well_formed() ==> (r matches Ok((x, end))
                && end == pos + s.encoding().len() && x.encoding() == s.encoding()),
        r matches Err(e) ==> e is Truncated || e is UnknownExpressionTag || e is NestingTooDeep
            || e is UnknownDimension,
{
    let ghost d = data@;
    let tag = data[pos];
    let p = pos + 1;
    assert(d.subrange(pos as int, p as int) =~= seq![tag]);
    proof {
        assert forall|s: Section| #[trigger] s.encodes_at(d, pos as int) implies s.tag() == tag by {
            assert(d.subrange(pos as int, pos + s.encoding().len())[0] == d[pos as int]);
        }
    }
    let (a0, q0) = match SetMXInfo::read(data, p) {
        Ok(x) => x,
        Err(err) => {
            proof {
                assert forall|s: Section| #[trigger] s.encodes_at(d, pos as int) && s.well_formed() implies false by {
                    if let Section::SetMXInfo(b0) = s {
                        let e = s.encoding();
                        assert(d.subrange(pos as int, pos + e.len()) == e);
                        assert(e.subrange(1int, 1int + b0.encoding().len()) =~= b0.encoding());
                        assert(d.subrange(pos + 1int, pos + 1int + b0.encoding().len()) =~= e.subrange(1int, 1int + b0.encoding().len()));
                        assert(b0.encodes_at(d, p as int));
                    }
                }
            }
            return Err(err);
        },
    };
    let x = Section::SetMXInfo(a0);
    let end = q0;
    assert(d.subrange(pos as int, end as int) =~= d.subrange(pos as int, p as int) + d.subrange(p as int, q0 as int));
    assert(d.subrange(pos as int, end as int) =~= x.encoding());
    proof {
        assert forall|s: Section| #[trigger] s.encodes_at(d, pos as int) && s.well_formed() implies x.encoding() == s.encoding() && end == pos + s.encoding().len() by {
            if let Section::SetMXInfo(b0) = s {
                let e = s.encoding();
                assert(d.subrange(pos as int, pos + e.len()) == e);
                assert(e.subrange(1int, 1int + b0.encoding().len()) =~= b0.encoding());
                assert(d.subrange(pos + 1int, pos + 1int + b0.encoding().len()) =~= e.subrange(1int, 1int + b0.encoding().len()));
                assert(b0.encodes_at(d, p as int));
                assert(x.encoding() =~= s.encoding());
            }
        }
    }
    Ok((x, end))
}

/// Reads a section whose tag, at `pos`, is 46.
fn read_cpu_section(data: &[u8], pos: usize) -> (r: Result<(Section, usize), DecodeError>)
    requires
        pos < data@.len(),
        data@[pos as int] == 46,
    ensures
        r matches Ok((s, end)) ==> holds_at(data@, pos as int, end as int, s.encoding())
            && s.well_formed(),
        forall|s: Section|
            #[trigger] s.encodes_at(data@, pos as int) && s.well_formed() ==> (r matches Ok((x, end))
                && end == pos + s.encoding().len() && x.encoding() == s.encoding()),
        r matches Err(e) ==> e is Truncated || e is UnknownExpressionTag || e is NestingTooDeep
            || e is UnknownDimension,
{
    let ghost d = data@;
    let tag = data[pos];
    let p = pos + 1;
    assert(d.subrange(pos as int, p as int) =~= seq![tag]);
    proof {
        assert forall|s: Section| #[trigger] s.encodes_at(d, pos as int) implies s.tag() == tag by {
            assert(d.subrange(pos as int, pos + s.encoding().len())[0] == d[pos as int]);
        }
    }
    let (a0, q0) = match read_u8(data, p) {
        Ok(x) => x,
        Err(err) => {
            proof {
                assert forall|s: Section| #[trigger] s.encodes_at(d, pos as int) && s.well_formed() implies false by {
                    if let Section::CPU(b0) = s {
                        let e = s.encoding();
                        assert(d.subrange(pos as int, pos + e.len()) == e);
                        assert(e.subrange(1int, 1int + 1) =~= seq![b0]);
                        assert(d.subrange(pos + 1int, pos + 1int + 1) =~= e.subrange(1int, 1int + 1));
                    }
                }
            }
            return Err(err);
        },
    };
    let x = Section::CPU(a0);
    let end = q0;
    assert(d.subrange(pos as int, end as int) =~= d.subrange(pos as int, p as int) + d.subrange(p as int, q0 as int));
    assert(d.subrange(pos as int, end as int) =~= x.encoding());
    proof {
        assert forall|s: Section| #[trigger] s.encodes_at(d, pos as int) && s.well_formed() implies x.encoding() == s.encoding() && end == pos + s.encoding().len() by {
            if let Section::CPU(b0) = s {
                let e = s.encoding();
                assert(d.subrange(pos as int, pos + e.len()) == e);
                assert(e.subrange(1int, 1int + 1) =~= seq![b0]);
                assert(d.subrange(pos + 1int, pos + 1int + 1) =~= e.subrange(1int, 1int + 1));
                assert(d.subrange(p as int, p + 1)[0] == a0);
                assert(d.subrange(pos + 1int, pos + 1int + 1)[0] == b0);
                assert(x.encoding() =~= s.encoding());
            }
        }
    }
    Ok((x, end))
}

/// Reads a section whose tag, at `pos`, is 48.
#[verifier::rlimit(100)]
fn read_xbss_section(data: &[u8], pos: usize) -> (r: Result<(Section, usize), DecodeError>)
    requires
        pos < data@.len(),
        data@[pos as int] == 48,
    ensures
        r matches Ok((s, end)) ==> holds_at(data@, pos as int, end as int, s.encoding())
            && s.well_formed(),
        forall|s: Section|
            #[trigger] s.encodes_at(data@, pos as int) && s.well_formed() ==> (r matches Ok((x, end))
                && end == pos + s.encoding().len() && x.encoding() == s.encoding()),
        r matches Err(e) ==> e is Truncated || e is UnknownExpressionTag || e is NestingTooDeep
            || e is UnknownDimension,
{
    let ghost d = data@;
    let tag = data[pos];
    let p = pos + 1;
    assert(d.subrange(pos as int, p as int) =~= seq![tag]);
    proof {
        assert forall|s: Section| #[trigger] s.encodes_at(d, pos as int) implies s.tag() == tag by {
            assert(d.subrange(pos as int, pos + s.encoding().len())[0] == d[pos as int]);
        }
    }
    let (a0, q0) = match XBSS::read(data, p) {
        Ok(x) => x,
        Err(err) => {
            proof {
                assert forall|s: Section| #[trigger] s.encodes_at(d, pos as int) && s.well_formed() implies false by {
                    if let Section::XBSS(b0) = s {
                        let e = s.encoding();
                        assert(d.subrange(pos as int, pos + e.len()) == e);
                        assert(e.subrange(1int, 1int + b0.encoding().len()) =~= b0.encoding());
                        assert(d.subrange(pos + 1int, pos + 1int + b0.encoding().len()) =~= e.subrange(1int, 1int + b0.encoding().len()));
                        assert(b0.encodes_at(d, p as int));
                    }
                }
            }
            return Err(err);
        },
    };
    let x = Section::XBSS(a0);
    let end = q0;
    assert(d.subrange(pos as int, end as int) =~= d.subrange(pos as int, p as int) + d.subrange(p as int, q0 as int));
    assert(d.subrange(pos as int, end as int) =~= x.encoding());
    proof {
        assert forall|s: Section| #[trigger] s.encodes_at(d, pos as int) && s.well_formed() implies x.encoding() == s.encoding() && end == pos + s.encoding().len() by {
            if let Section::XBSS(b0) = s {
                let e = s.encoding();
                assert(d.subrange(pos as int, pos + e.len()) == e);
                assert(e.subrange(1int, 1int + b0.encoding().len()) =~= b0.encoding());
                assert(d.subrange(pos + 1int, pos + 1int + b0.encoding().len()) =~= e.subrange(1int, 1int + b0.encoding().len()));
                assert(b0.encodes_at(d, p as int));
                assert(x.encoding() =~= s.encoding());
            }
        }
    }
    Ok((x, end))
}

/// Reads a section whose tag, at `pos`, is 50.
fn read_incsldlinenum_section(data: &[u8], pos: usize) -> (r: Result<(Section, usize), DecodeError>)
    requires
        pos < data@.len(),
        data@[pos as int] == 50,
    ensures
        r matches Ok((s, end)) ==> holds_at(data@, pos as int, end as int, s.encoding())
            && s.well_formed(),
        forall|s: Section|
            #[trigger] s.encodes_at(data@, pos as int) && s.well_formed() ==> (r matches Ok((x, end))
                && end == pos + s.encoding().len() && x.encoding() == s.encoding()),
        r matches Err(e) ==> e is Truncated || e is UnknownExpressionTag || e is NestingTooDeep
            || e is UnknownDimension,
{
    let ghost d = data@;
    let tag = data[pos];
    let p = pos + 1;
    assert(d.subrange(pos as int, p as int) =~= seq![tag]);
    proof {
        assert forall|s: Section| #[trigger] s.encodes_at(d, pos as int) implies s.tag() == tag by {
            assert(d.subrange(pos as int, pos + s.encoding().len())[0] == d[pos as int]);
        }
    }
    let (a0, q0) = match read_u16(data, p) {
        Ok(x) => x,
        Err(err) => {
            proof {
                assert forall|s: Section| #[trigger] s.encodes_at(d, pos as int) && s.well_formed() implies false by {
                    if let Section::IncSLDLineNum(b0) = s {
                        let e = s.encoding();
                        assert(d.subrange(pos as int, pos + e.len()) == e);
                        assert(e.subrange(1int, 1int + 2) =~= le16(b0));
                        assert(d.subrange(pos + 1int, pos + 1int + 2) =~= e.subrange(1int, 1int + 2));
                    }
                }
            }
            return Err(err);
        },
    };
    let x = Section::IncSLDLineNum(a0);
    let end = q0;
    assert(d.subrange(pos as int, end as int) =~= d.subrange(pos as int, p as int) + d.subrange(p as int, q0 as int));
    assert(d.subrange(pos as int, end as int) =~= x.encoding());
    proof {
        assert forall|s: Section| #[trigger] s.encodes_at(d, pos as int) && s.well_formed() implies x.encoding() == s.encoding() && end == pos + s.encoding().len() by {
            if let Section::IncSLDLineNum(b0) = s {
                let e = s.encoding();
                assert(d.subrange(pos as int, pos + e.len()) == e);
                assert(e.subrange(1int, 1int + 2) =~= le16(b0));
                assert(d.subrange(pos + 1int, pos + 1int + 2) =~= e.subrange(1int, 1int + 2));
                lemma_le16_injective(a0, b0);
                assert(x.encoding() =~= s.encoding());
            }
        }
    }
    Ok((x, end))
}

/// Reads a section whose tag, at `pos`, is 52.
fn read_incsldlinenumbyte_section(data: &[u8], pos: usize) -> (r: Result<(Section, usize), DecodeError>)
    requires
        pos < data@.len(),
        data@[pos as int] == 52,
    ensures
        r matches Ok((s, end)) ==> holds_at(data@, pos as int, end as int, s.encoding())
            && s.well_formed(),
        forall|s: Section|
            #[trigger] s.encodes_at(data@, pos as int) && s.well_formed() ==> (r matches Ok((x, end))
                && end == pos + s.encoding().len() && x.encoding() == s.encoding()),
        r matches Err(e) ==> e is Truncated || e is UnknownExpressionTag || e is NestingTooDeep
            || e is UnknownDimension,
{
    let ghost d = data@;
    let tag = data[pos];
    let p = pos + 1;
    assert(d.subrange(pos as int, p as int) =~= seq![tag]);
    proof {
        assert forall|s: Section| #[trigger] s.encodes_at(d, pos as int) implies s.tag() == tag by {
            assert(d.subrange(pos as int, pos + s.encoding().len())[0] == d[pos as int]);
        }
    }
    let (a0, q0) = match read_u16(data, p) {
        Ok(x) => x,
        Err(err) => {
            proof {
                assert forall|s: Section| #[trigger] s.encodes_at(d, pos as int) && s.well_formed() implies false by {
                    if let Section::IncSLDLineNumByte(b0, b1) = s {
                        let e = s.encoding();
                        assert(d.subrange(pos as int, pos + e.len()) == e);
                        assert(e.subrange(1int, 1int + 2) =~= le16(b0));
                        assert(d.subrange(pos + 1int, pos + 1int + 2) =~= e.subrange(1int, 1int + 2));
                    }
                }
            }
            return Err(err);
        },
    };
    let (a1, q1) = match read_u8(data, q0) {
        Ok(x) => x,
        Err(err) => {
            proof {
                assert forall|s: Section| #[trigger] s.encodes_at(d, pos as int) && s.well_formed() implies false by {
                    if let Section::IncSLDLineNumByte(b0, b1) = s {
                        let e = s.encoding();
                        assert(d.subrange(pos as int, pos + e.len()) == e);
                        assert(e.subrange(1int, 1int + 2) =~= le16(b0));
                        assert(d.subrange(pos + 1int, pos + 1int + 2) =~= e.subrange(1int, 1int + 2));
                        lemma_le16_injective(a0, b0);
                        assert(e.subrange(1int + 2, 1int + 2 + 1) =~= seq![b1]);
                        assert(d.subrange(pos + 1int + 2, pos + 1int + 2 + 1) =~= e.subrange(1int + 2, 1int + 2 + 1));
                    }
                }
            }
            return Err(err);
        },
    };
    let x = Section::IncSLDLineNumByte(a0, a1);
    let end = q1;
    assert(d.subrange(pos as int, end as int) =~= d.subrange(pos as int, p as int) + d.subrange(p as int, q0 as int) + d.subrange(q0 as int, q1 as int));
    assert(d.subrange(pos as int, end as int) =~= x.encoding());
    proof {
        assert forall|s: Section| #[trigger] s.encodes_at(d, pos as int) && s.well_formed() implies x.encoding() == s.encoding() && end == pos + s.encoding().len() by {
            if let Section::IncSLDLineNumByte(b0, b1) = s {
                let e = s.encoding();
                assert(d.subrange(pos as int, pos + e.len()) == e);
                assert(e.subrange(1int, 1int + 2) =~= le16(b0));
                assert(d.subrange(pos + 1int, pos + 1int + 2) =~= e.subrange(1int, 1int + 2));
                lemma_le16_injective(a0, b0);
                assert(e.subrange(1int + 2, 1int + 2 + 1) =~= seq![b1]);
                assert(d.subrange(pos + 1int + 2, pos + 1int + 2 + 1) =~= e.subrange(1int + 2, 1int + 2 + 1));
                assert(d.subrange(q0 as int, q0 + 1)[0] == a1);
                assert(d.subrange(pos + 1int + 2, pos + 1int + 2 + 1)[0] == b1);
                assert(x.encoding() =~= s.encoding());
            }
        }
    }
    Ok((x, end))
}

/// Reads a section whose tag, at `pos`, is 56.
fn read_setsldlinenum_section(data: &[u8], pos: usize) -> (r: Result<(Section, usize), DecodeError>)
    requires
        pos < data@.len(),
        data@[pos as int] == 56,
    ensures
        r matches Ok((s, end)) ==> holds_at(data@, pos as int, end as int, s.encoding())
            && s.well_formed(),
        forall|s: Section|
            #[trigger] s.encodes_at(data@, pos as int) && s.well_formed() ==> (r matches Ok((x, end))
                && end == pos + s.encoding().len() && x.encoding() == s.encoding()),
        r matches Err(e) ==> e is Truncated || e is UnknownExpressionTag || e is NestingTooDeep
            || e is UnknownDimension,
{
    let ghost d = data@;
    let tag = data[pos];
    let p = pos + 1;
    assert(d.subrange(pos as int, p as int) =~= seq![tag]);
    proof {
        assert forall|s: Section| #[trigger] s.encodes_at(d, pos as int) implies s.tag() == tag by {
            assert(d.subrange(pos as int, pos + s.encoding().len())[0] == d[pos as int]);
        }
    }
    let (a0, q0) = match SetSLDLineNum::read(data, p) {
        Ok(x) => x,
        Err(err) => {
            proof {
                assert forall|s: Section| #[trigger] s.encodes_at(d, pos as int) && s.well_formed() implies false by {
                    if let Section::SetSLDLineNum(b0) = s {
                        let e = s.encoding();
                        assert(d.subrange(pos as int, pos + e.len()) == e);
                        assert(e.subrange(1int, 1int + b0.encoding().len()) =~= b0.encoding());
                        assert(d.subrange(pos + 1int, pos + 1int + b0.encoding().len()) =~= e.subrange(1int, 1int + b0.encoding().len()));
                        assert(b0.encodes_at(d, p as int));
                    }
                }
            }
            return Err(err);
        },
    };
    let x = Section::SetSLDLineNum(a0);
    let end = q0;
    assert(d.subrange(pos as int, end as int) =~= d.subrange(pos as int, p as int) + d.subrange(p as int, q0 as int));
    assert(d.subrange(pos as int, end as int) =~= x.encoding());
    proof {
        assert forall|s: Section| #[trigger] s.encodes_at(d, pos as int) && s.well_formed() implies x.encoding() == s.encoding() && end == pos + s.encoding().len() by {
            if let Section::SetSLDLineNum(b0) = s {
                let e = s.encoding();
                assert(d.subrange(pos as int, pos + e.len()) == e);
                assert(e.subrange(1int, 1int + b0.encoding().len()) =~= b0.encoding());
                assert(d.subrange(pos + 1int, pos + 1int + b0.encoding().len()) =~= e.subrange(1int, 1int + b0.encoding().len()));
                assert(b0.encodes_at(d, p as int));
                assert(x.encoding() =~= s.encoding());
            }
        }
    }
    Ok((x, end))
}

/// Reads a section whose tag, at `pos`, is 58.
fn read_setsldlinenumfile_section(data: &[u8], pos: usize) -> (r: Result<(Section, usize), DecodeError>)
    requires
        pos < data@.len(),
        data@[pos as int] == 58,
    ensures
        r matches Ok((s, end)) ==> holds_at(data@, pos as int, end as int, s.encoding())
            && s.well_formed(),
        forall|s: Section|
            #[trigger] s.encodes_at(data@, pos as int) && s.well_formed() ==> (r matches Ok((x, end))
                && end == pos + s.encoding().len() && x.encoding() == s.encoding()),
        r matches Err(e) ==> e is Truncated || e is UnknownExpressionTag || e is NestingTooDeep
            || e is UnknownDimension,
{
    let ghost d = data@;
    let tag = data[pos];
    let p = pos + 1;
    assert(d.subrange(pos as int, p as int) =~= seq![tag]);
    proof {
        assert forall|s: Section| #[trigger] s.encodes_at(d, pos as int) implies s.tag() == tag by {
            assert(d.subrange(pos as int, pos + s.encoding().len())[0] == d[pos as int]);
        }
    }
    let (a0, q0) = match SetSLDLineNumFile::read(data, p) {
        Ok(x) => x,
        Err(err) => {
            proof {
                assert forall|s: Section| #[trigger] s.encodes_at(d, pos as int) && s.well_formed() implies false by {
                    if let Section::SetSLDLineNumFile(b0) = s {
                        let e = s.encoding();
                        assert(d.subrange(pos as int, pos + e.len()) == e);
                        assert(e.subrange(1int, 1int + b0.encoding().len()) =~= b0.encoding());
                        assert(d.subrange(pos + 1int, pos + 1int + b0.encoding().len()) =~= e.subrange(1int, 1int + b0.encoding().len()));
                        assert(b0.encodes_at(d, p as int));
                    }
                }
            }
            return Err(err);
        },
    };
    let x = Section::SetSLDLineNumFile(a0);
    let end = q0;
    assert(d.subrange(pos as int, end as int) =~= d.subrange(pos as int, p as int) + d.subrange(p as int, q0 as int));
    assert(d.subrange(pos as int, end as int) =~= x.encoding());
    proof {
        assert forall|s: Section| #[trigger] s.encodes_at(d, pos as int) && s.well_formed() implies x.encoding() == s.encoding() && end == pos + s.encoding().len() by {
            if let Section::SetSLDLineNumFile(b0) = s {
                let e = s.encoding();
                assert(d.subrange(pos as int, pos + e.len()) == e);
                assert(e.subrange(1int, 1int + b0.encoding().len()) =~= b0.encoding());
                assert(d.subrange(pos + 1int, pos + 1int + b0.encoding().len()) =~= e.subrange(1int, 1int + b0.encoding().len()));
                assert(b0.encodes_at(d, p as int));
                assert(x.encoding() =~= s.encoding());
            }
        }
    }
    Ok((x, end))
}

/// Reads a section whose tag, at `pos`, is 60.
fn read_endsldinfo_section(data: &[u8], pos: usize) -> (r: Result<(Section, usize), DecodeError>)
    requires
        pos < data@.len(),
        data@[pos as int] == 60,
    ensures
        r matches Ok((s, end)) ==> holds_at(data@, pos as int, end as int, s.encoding())
            && s.well_formed(),
        forall|s: Section|
            #[trigger] s.encodes_at(data@, pos as int) && s.well_formed() ==> (r matches Ok((x, end))
                && end == pos + s.encoding().len() && x.encoding() == s.encoding()),
        r matches Err(e) ==> e is Truncated || e is UnknownExpressionTag || e is NestingTooDeep
            || e is UnknownDimension,
{
    let ghost d = data@;
    let tag = data[pos];
    let p = pos + 1;
    assert(d.subrange(pos as int, p as int) =~= seq![tag]);
    proof {
        assert forall|s: Section| #[trigger] s.encodes_at(d, pos as int) implies s.tag() == tag by {
            assert(d.subrange(pos as int, pos + s.encoding().len())[0] == d[pos as int]);
        }
    }
    let (a0, q0) = match read_u16(data, p) {
        Ok(x) => x,
        Err(err) => {
            proof {
                assert forall|s: Section| #[trigger] s.encodes_at(d, pos as int) && s.well_formed() implies false by {
                    if let Section::EndSLDInfo(b0) = s {
                        let e = s.encoding();
                        assert(d.subrange(pos as int, pos + e.len()) == e);
                        assert(e.subrange(1int, 1int + 2) =~= le16(b0));
                        assert(d.subrange(pos + 1int, pos + 1int + 2) =~= e.subrange(1int, 1int + 2));
                    }
                }
            }
            return Err(err);
        },
    };
    let x = Section::EndSLDInfo(a0);
    let end = q0;
    assert(d.subrange(pos as int, end as int) =~= d.subrange(pos as int, p as int) + d.subrange(p as int, q0 as int));
    assert(d.subrange(pos as int, end as int) =~= x.encoding());
    proof {
        assert forall|s: Section| #[trigger] s.encodes_at(d, pos as int) && s.well_formed() implies x.encoding() == s.encoding() && end == pos + s.encoding().len() by {
            if let Section::EndSLDInfo(b0) = s {
                let e = s.encoding();
                assert(d.subrange(pos as int, pos + e.len()) == e);
                assert(e.subrange(1int, 1int + 2) =~= le16(b0));
                assert(d.subrange(pos + 1int, pos + 1int + 2) =~= e.subrange(1int, 1int + 2));
                lemma_le16_injective(a0, b0);
                assert(x.encoding() =~= s.encoding());
            }
        }
    }
    Ok((x, end))
}

/// Reads a section whose tag, at `pos`, is 74.
#[verifier::rlimit(100)]
fn read_functionstart_section(data: &[u8], pos: usize) -> (r: Result<(Section, usize), DecodeError>)
    requires
        pos < data@.len(),
        data@[pos as int] == 74,
    ensures
        r matches Ok((s, end)) ==> holds_at(data@, pos as int, end as int, s.encoding())
            && s.well_formed(),
        forall|s: Section|
            #[trigger] s.encodes_at(data@, pos as int) && s.well_formed() ==> (r matches Ok((x, end))
                && end == pos + s.encoding().len() && x.encoding() == s.encoding()),
        r matches Err(e) ==> e is Truncated || e is UnknownExpressionTag || e is NestingTooDeep
            || e is UnknownDimension,
{
    let ghost d = data@;
    let tag = data[pos];
    let p = pos + 1;
    assert(d.subrange(pos as int, p as int) =~= seq![tag]);
    proof {
        assert forall|s: Section| #[trigger] s.encodes_at(d, pos as int) implies s.tag() == tag by {
            assert(d.subrange(pos as int, pos + s.encoding().len())[0] == d[pos as int]);
        }
    }
    let (a0, q0) = match FunctionStart::read(data, p) {
        Ok(x) => x,
        Err(err) => {
            proof {
                assert forall|s: Section| #[trigger] s.encodes_at(d, pos as int) && s.well_formed() implies false by {
                    if let Section::FunctionStart(b0) = s {
                        let e = s.encoding();
                        assert(d.subrange(pos as int, pos + e.len()) == e);
                        assert(e.subrange(1int, 1int + b0.encoding().len()) =~= b0.encoding());
                        assert(d.subrange(pos + 1int, pos + 1int + b0.encoding().len()) =~= e.subrange(1int, 1int + b0.encoding().len()));
                        assert(b0.encodes_at(d, p as int));
                    }
                }
            }
            return Err(err);
        },
    };
    let x = Section::FunctionStart(a0);
    let end = q0;
    assert(d.subrange(pos as int, end as int) =~= d.subrange(pos as int, p as int) + d.subrange(p as int, q0 as int));
    assert(d.subrange(pos as int, end as int) =~= x.encoding());
    proof {
        assert forall|s: Section| #[trigger] s.encodes_at(d, pos as int) && s.well_formed() implies x.encoding() == s.encoding() && end == pos + s.encoding().len() by {
            if let Section::FunctionStart(b0) = s {
                let e = s.encoding();
                assert(d.subrange(pos as int, pos + e.len()) == e);
                assert(e.subrange(1int, 1int + b0.encoding().len()) =~= b0.encoding());
                assert(d.subrange(pos + 1int, pos + 1int + b0.encoding().len()) =~= e.subrange(1int, 1int + b0.encoding().len()));
                assert(b0.encodes_at(d, p as int));
                assert(x.encoding() =~= s.encoding());
            }
        }
    }
    Ok((x, end))
}

/// Reads a section whose tag, at `pos`, is 76.
fn read_functionend_section(data: &[u8], pos: usize) -> (r: Result<(Section, usize), DecodeError>)
    requires
        pos < data@.len(),
        data@[pos as int] == 76,
    ensures
        r matches Ok((s, end)) ==> holds_at(data@, pos as int, end as int, s.encoding())
            && s.well_formed(),
        forall|s: Section|
            #[trigger] s.encodes_at(data@, pos as int) && s.well_formed() ==> (r matches Ok((x, end))
                && end == pos + s.encoding().len() && x.encoding() == s.encoding()),
        r matches Err(e) ==> e is Truncated || e is UnknownExpressionTag || e is NestingTooDeep
            || e is UnknownDimension,
{
    let ghost d = data@;
    let tag = data[pos];
    let p = pos + 1;
    assert(d.subrange(pos as int, p as int) =~= seq![tag]);
    proof {
        assert forall|s: Section| #[trigger] s.encodes_at(d, pos as int) implies s.tag() == tag by {
            assert(d.subrange(pos as int, pos + s.encoding().len())[0] == d[pos as int]);
        }
    }
    let (a0, q0) = match FunctionEnd::read(data, p) {
        Ok(x) => x,
        Err(err) => {
            proof {
                assert forall|s: Section| #[trigger] s.encodes_at(d, pos as int) && s.well_formed() implies false by {
                    if let Section::FunctionEnd(b0) = s {
                        let e = s.encoding();
                        assert(d.subrange(pos as int, pos + e.len()) == e);
                        assert(e.subrange(1int, 1int + b0.encoding().len()) =~= b0.encoding());
                        assert(d.subrange(pos + 1int, pos + 1int + b0.encoding().len()) =~= e.subrange(1int, 1int + b0.encoding().len()));
                        assert(b0.encodes_at(d, p as int));
                    }
                }
            }
            return Err(err);
        },
    };
    let x = Section::FunctionEnd(a0);
    let end = q0;
    assert(d.subrange(pos as int, end as int) =~= d.subrange(pos as int, p as int) + d.subrange(p as int, q0 as int));
    assert(d.subrange(pos as int, end as int) =~= x.encoding());
    proof {
        assert forall|s: Section| #[trigger] s.encodes_at(d, pos as int) && s.well_formed() implies x.encoding() == s.encoding() && end == pos + s.encoding().len() by {
            if let Section::FunctionEnd(b0) = s {
                let e = s.encoding();
                assert(d.subrange(pos as int, pos + e.len()) == e);
                assert(e.subrange(1int, 1int + b0.encoding().len()) =~= b0.encoding());
                assert(d.subrange(pos + 1int, pos + 1int + b0.encoding().len()) =~= e.subrange(1int, 1int + b0.encoding().len()));
                assert(b0.encodes_at(d, p as int));
                assert(x.encoding() =~= s.encoding());
            }
        }
    }
    Ok((x, end))
}

/// Reads a section whose tag, at `pos`, is 78.
fn read_blockstart_section(data: &[u8], pos: usize) -> (r: Result<(Section, usize), DecodeError>)
    requires
        pos < data@.len(),
        data@[pos as int] == 78,
    ensures
        r matches Ok((s, end)) ==> holds_at(data@, pos as int, end as int, s.encoding())
            && s.well_formed(),
        forall|s: Section|
            #[trigger] s.encodes_at(data@, pos as int) && s.well_formed() ==> (r matches Ok((x, end))
                && end == pos + s.encoding().len() && x.encoding() == s.encoding()),
        r matches Err(e) ==> e is Truncated || e is UnknownExpressionTag || e is NestingTooDeep
            || e is UnknownDimension,
{
    let ghost d = data@;
    let tag = data[pos];
    let p = pos + 1;
    assert(d.subrange(pos as int, p as int) =~= seq![tag]);
    proof {
        assert forall|s: Section| #[trigger] s.encodes_at(d, pos as int) implies s.tag() == tag by {
            assert(d.subrange(pos as int, pos + s.encoding().len())[0] == d[pos as int]);
        }
    }
    let (a0, q0) = match BlockStart::read(data, p) {
        Ok(x) => x,
        Err(err) => {
            proof {
                assert forall|s: Section| #[trigger] s.encodes_at(d, pos as int) && s.well_formed() implies false by {
                    if let Section::BlockStart(b0) = s {
                        let e = s.encoding();
                        assert(d.subrange(pos as int, pos + e.len()) == e);
                        assert(e.subrange(1int, 1int + b0.encoding().len()) =~= b0.encoding());
                        assert(d.subrange(pos + 1int, pos + 1int + b0.encoding().len()) =~= e.subrange(1int, 1int + b0.encoding().len()));
                        assert(b0.encodes_at(d, p as int));
                    }
                }
            }
            return Err(err);
        },
    };
    let x = Section::BlockStart(a0);
    let end = q0;
    assert(d.subrange(pos as int, end as int) =~= d.subrange(pos as int, p as int) + d.subrange(p as int, q0 as int));
    assert(d.subrange(pos as int, end as int) =~= x.encoding());
    proof {
        assert forall|s: Section| #[trigger] s.encodes_at(d, pos as int) && s.well_formed() implies x.encoding() == s.encoding() && end == pos + s.encoding().len() by {
            if let Section::BlockStart(b0) = s {
                let e = s.encoding();
                assert(d.subrange(pos as int, pos + e.len()) == e);
                assert(e.subrange(1int, 1int + b0.encoding().len()) =~= b0.encoding());
                assert(d.subrange(pos + 1int, pos + 1int + b0.encoding().len()) =~= e.subrange(1int, 1int + b0.encoding().len()));
                assert(b0.encodes_at(d, p as int));
                assert(x.encoding() =~= s.encoding());
            }
        }
    }
    Ok((x, end))
}

/// Reads a section whose tag, at `pos`, is 80.
fn read_blockend_section(data: &[u8], pos: usize) -> (r: Result<(Section, usize), DecodeError>)
    requires
        pos < data@.len(),
        data@[pos as int] == 80,
    ensures
        r matches Ok((s, end)) ==> holds_at(data@, pos as int, end as int, s.encoding())
            && s.well_formed(),
        forall|s: Section|
            #[trigger] s.encodes_at(data@, pos as int) && s.well_formed() ==> (r matches Ok((x, end))
                && end == pos + s.encoding().len() && x.encoding() == s.encoding()),
        r matches Err(e) ==> e is Truncated || e is UnknownExpressionTag || e is NestingTooDeep
            || e is UnknownDimension,
{
    let ghost d = data@;
    let tag = data[pos];
    let p = pos + 1;
    assert(d.subrange(pos as int, p as int) =~= seq![tag]);
    proof {
        assert forall|s: Section| #[trigger] s.encodes_at(d, pos as int) implies s.tag() == tag by {
            assert(d.subrange(pos as int, pos + s.encoding().len())[0] == d[pos as int]);
        }
    }
    let (a0, q0) = match BlockEnd::read(data, p) {
        Ok(x) => x,
        Err(err) => {
            proof {
                assert forall|s: Section| #[trigger] s.encodes_at(d, pos as int) && s.well_formed() implies false by {
                    if let Section::BlockEnd(b0) = s {
                        let e = s.encoding();
                        assert(d.subrange(pos as int, pos + e.len()) == e);
                        assert(e.subrange(1int, 1int + b0.encoding().len()) =~= b0.encoding());
                        assert(d.subrange(pos + 1int, pos + 1int + b0.encoding().len()) =~= e.subrange(1int, 1int + b0.encoding().len()));
                        assert(b0.encodes_at(d, p as int));
                    }
                }
            }
            return Err(err);
        },
    };
    let x = Section::BlockEnd(a0);
    let end = q0;
    assert(d.subrange(pos as int, end as int) =~= d.subrange(pos as int, p as int) + d.subrange(p as int, q0 as int));
    assert(d.subrange(pos as int, end as int) =~= x.encoding());
    proof {
        assert forall|s: Section| #[trigger] s.encodes_at(d, pos as int) && s.well_formed() implies x.encoding() == s.encoding() && end == pos + s.encoding().len() by {
            if let Section::BlockEnd(b0) = s {
                let e = s.encoding();
                assert(d.subrange(pos as int, pos + e.len()) == e);
                assert(e.subrange(1int, 1int + b0.encoding().len()) =~= b0.encoding());
                assert(d.subrange(pos + 1int, pos + 1int + b0.encoding().len()) =~= e.subrange(1int, 1int + b0.encoding().len()));
                assert(b0.encodes_at(d, p as int));
                assert(x.encoding() =~= s.encoding());
            }
        }
    }
    Ok((x, end))
}

/// Reads a section whose tag, at `pos`, is 82.
#[verifier::rlimit(100)]
fn read_def_section(data: &[u8], pos: usize) -> (r: Result<(Section, usize), DecodeError>)
    requires
        pos < data@.len(),
        data@[pos as int] == 82,
    ensures
        r matches Ok((s, end)) ==> holds_at(data@, pos as int, end as int, s.encoding())
            && s.well_formed(),
        forall|s: Section|
            #[trigger] s.encodes_at(data@, pos as int) && s.well_formed() ==> (r matches Ok((x, end))
                && end == pos + s.encoding().len() && x.encoding() == s.encoding()),
        r matches Err(e) ==> e is Truncated || e is UnknownExpressionTag || e is NestingTooDeep
            || e is UnknownDimension,
{
    let ghost d = data@;
    let tag = data[pos];
    let p = pos + 1;
    assert(d.subrange(pos as int, p as int) =~= seq![tag]);
    proof {
        assert forall|s: Section| #[trigger] s.encodes_at(d, pos as int) implies s.tag() == tag by {
            assert(d.subrange(pos as int, pos + s.encoding().len())[0] == d[pos as int]);
        }
    }
    let (a0, q0) = match Def::read(data, p) {
        Ok(x) => x,
        Err(err) => {
            proof {
                assert forall|s: Section| #[trigger] s.encodes_at(d, pos as int) && s.well_formed() implies false by {
                    if let Section::Def(b0) = s {
                        let e = s.encoding();
                        assert(d.subrange(pos as int, pos + e.len()) == e);
                        assert(e.subrange(1int, 1int + b0.encoding().len()) =~= b0.encoding());
                        assert(d.subrange(pos + 1int, pos + 1int + b0.encoding().len()) =~= e.subrange(1int, 1int + b0.encoding().len()));
                        assert(b0.encodes_at(d, p as int));
                    }
                }
            }
            return Err(err);
        },
    };
    let x = Section::Def(a0);
    let end = q0;
    assert(d.subrange(pos as int, end as int) =~= d.subrange(pos as int, p as int) + d.subrange(p as int, q0 as int));
    assert(d.subrange(pos as int, end as int) =~= x.encoding());
    proof {
        assert forall|s: Section| #[trigger] s.encodes_at(d, pos as int) && s.well_formed() implies x.encoding() == s.encoding() && end == pos + s.encoding().len() by {
            if let Section::Def(b0) = s {
                let e = s.encoding();
                assert(d.subrange(pos as int, pos + e.len()) == e);
                assert(e.subrange(1int, 1int + b0.encoding().len()) =~= b0.encoding());
                assert(d.subrange(pos + 1int, pos + 1int + b0.encoding().len()) =~= e.subrange(1int, 1int + b0.encoding().len()));
                assert(b0.encodes_at(d, p as int));
                assert(x.encoding() =~= s.encoding());
            }
        }
    }
    Ok((x, end))
}

/// Reads a section whose tag, at `pos`, is 84.
#[verifier::rlimit(100)]
fn read_def2_section(data: &[u8], pos: usize) -> (r: Result<(Section, usize), DecodeError>)
    requires
        pos < data@.len(),
        data@[pos as int] == 84,
    ensures
        r matches Ok((s, end)) ==> holds_at(data@, pos as int, end as int, s.encoding())
            && s.well_formed(),
        forall|s: Section|
            #[trigger] s.encodes_at(data@, pos as int) && s.well_formed() ==> (r matches Ok((x, end))
                && end == pos + s.encoding().len() && x.encoding() == s.encoding()),
        r matches Err(e) ==> e is Truncated || e is UnknownExpressionTag || e is NestingTooDeep
            || e is UnknownDimension,
{
    let ghost d = data@;
    let tag = data[pos];
    let p = pos + 1;
    assert(d.subrange(pos as int, p as int) =~= seq![tag]);
    proof {
        assert forall|s: Section| #[trigger] s.encodes_at(d, pos as int) implies s.tag() == tag by {
            assert(d.subrange(pos as int, pos + s.encoding().len())[0] == d[pos as int]);
        }
    }
    let (a0, q0) = match Def2::read(data, p) {
        Ok(x) => x,
        Err(err) => {
            proof {
                assert forall|s: Section| #[trigger] s.encodes_at(d, pos as int) && s.well_formed() implies false by {
                    if let Section::Def2(b0) = s {
                        let e = s.encoding();
                        assert(d.subrange(pos as int, pos + e.len()) == e);
                        assert(e.subrange(1int, 1int + b0.encoding().len()) =~= b0.encoding());
                        assert(d.subrange(pos + 1int, pos + 1int + b0.encoding().len()) =~= e.subrange(1int, 1int + b0.encoding().len()));
                        assert(b0.encodes_at(d, p as int));
                    }
                }
            }
            return Err(err);
        },
    };
    let x = Section::Def2(a0);
    let end = q0;
    assert(d.subrange(pos as int, end as int) =~= d.subrange(pos as int, p as int) + d.subrange(p as int, q0 as int));
    assert(d.subrange(pos as int, end as int) =~= x.encoding());
    proof {
        assert forall|s: Section| #[trigger] s.encodes_at(d, pos as int) && s.well_formed() implies x.encoding() == s.encoding() && end == pos + s.encoding().len() by {
            if let Section::Def2(b0) = s {
                let e = s.encoding();
                assert(d.subrange(pos as int, pos + e.len()) == e);
                assert(e.subrange(1int, 1int + b0.encoding().len()) =~= b0.encoding());
                assert(d.subrange(pos + 1int, pos + 1int + b0.encoding().len()) =~= e.subrange(1int, 1int + b0.encoding().len()));
                assert(b0.encodes_at(d, p as int));
                assert(x.encoding() =~= s.encoding());
            }
        }
    }
    Ok((x, end))
}

} // verus!
