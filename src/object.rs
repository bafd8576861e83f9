//! Object files: a header and a stream of sections ending with NOP.
use vstd::prelude::*;

use crate::codec::{holds_at, DecodeError};
use crate::section::Section;
use crate::text::{lossy_text, text_of};
use vstd::utf8::{decode_utf8, valid_utf8};

verus! {

/// The magic and version that begin an object file: `"LNK"`, 2.
pub open spec fn obj_header() -> Seq<u8> {
    seq![0x4Cu8, 0x4Eu8, 0x4Bu8, 2u8]
}

/// The concatenated encodings of `s`, in order.
pub open spec fn sections_encoding(s: Seq<Section>) -> Seq<u8>
    decreases s.len(),
{
    if s.len() == 0 {
        Seq::empty()
    } else {
        sections_encoding(s.drop_last()) + s.last().encoding()
    }
}

/// The encoding of a concatenation is the concatenation of the encodings.
pub proof fn lemma_sections_encoding_append(a: Seq<Section>, b: Seq<Section>)
    ensures
        sections_encoding(a + b) == sections_encoding(a) + sections_encoding(b),
    decreases b.len(),
{
    if b.len() == 0 {
        assert(a + b =~= a);
        assert(sections_encoding(b) =~= Seq::<u8>::empty());
        assert(sections_encoding(a) + sections_encoding(b) =~= sections_encoding(a));
    } else {
        lemma_sections_encoding_append(a, b.drop_last());
        assert((a + b).drop_last() =~= a + b.drop_last());
        assert(sections_encoding(a + b) =~= sections_encoding(a) + sections_encoding(b));
    }
}

/// The names of the observable exports among `s`: those of XDEF and XBSS
/// records with a non-empty name, in order.
pub open spec fn export_names(s: Seq<Section>) -> Seq<Seq<u8>>
    decreases s.len(),
{
    if s.len() == 0 {
        Seq::empty()
    } else {
        let rest = export_names(s.drop_last());
        match s.last() {
            Section::XDEF(x) => if x.symbol_name_size > 0 {
                rest.push(x.symbol_name@)
            } else {
                rest
            },
            Section::XBSS(x) => if x.name_size > 0 {
                rest.push(x.name@)
            } else {
                rest
            },
            _ => rest,
        }
    }
}

/// A PSY-Q object file (`LNK` format).
#[derive(Debug, Clone, PartialEq)]
pub struct OBJ {
    pub version: u8,
    /// The sections in file order; the last one is the NOP that ends them.
    pub sections: Vec<Section>,
}

impl OBJ {
    /// The bytes that store this object file.
    pub open spec fn encoding(self) -> Seq<u8> {
        seq![0x4Cu8, 0x4Eu8, 0x4Bu8, self.version] + sections_encoding(self.sections@)
    }

    /// The shape that the reader produces: version 2, and well-formed sections
    /// of which exactly the last is a NOP.
    pub open spec fn well_formed(self) -> bool {
        &&& self.version == 2
        &&& self.sections@.len() > 0
        &&& self.sections@.last() is NOP
        &&& forall|i: int|
            0 <= i < self.sections@.len() ==> (#[trigger] self.sections@[i]).well_formed()
        &&& forall|i: int| 0 <= i < self.sections@.len() - 1 ==> !(#[trigger] self.sections@[i] is NOP)
    }

    /// `data` holds the encoding of this object file from `pos` on.
    pub open spec fn encodes_at(self, data: Seq<u8>, pos: int) -> bool {
        holds_at(data, pos, pos + self.encoding().len(), self.encoding())
    }

    /// Reads the object file that begins at `pos`; bytes after its NOP are
    /// not read. It succeeds exactly when a well-formed object file is
    /// stored there.
    #[verifier::rlimit(100)]
    pub fn read(data: &[u8], pos: usize) -> (r: Result<(OBJ, usize), DecodeError>)
        ensures
            r matches Ok((o, end)) ==> holds_at(data@, pos as int, end as int, o.encoding())
                && o.well_formed(),
            forall|o: OBJ|
                #[trigger] o.encodes_at(data@, pos as int) && o.well_formed() ==> (r matches Ok(
                    (x, end),
                ) && end == pos + o.encoding().len() && x.encoding() == o.encoding()),
            r matches Err(DecodeError::BadMagic) ==> !(pos + 4 <= data@.len() && data@.subrange(
                pos as int,
                pos + 4,
            ) == obj_header()),
            !(pos + 4 <= data@.len() && data@.subrange(pos as int, pos + 4) == obj_header()) ==> r
                == Err::<(OBJ, usize), DecodeError>(DecodeError::BadMagic),
            r matches Err(e) ==> !(e is EmptyArchive) && !(e is InvalidPath) && !(e is ModuleTooLarge),
    {
        if pos <= data.len() && data.len() - pos >= 4 {
            assert(data@.subrange(pos as int, pos + 4) =~= seq![data@[pos as int], data@[pos + 1], data@[pos + 2], data@[pos + 3]]);
        }
        let ghost d = data@;
        if pos > data.len() || data.len() - pos < 4 || data[pos] != 0x4C || data[pos + 1] != 0x4E
            || data[pos + 2] != 0x4B || data[pos + 3] != 2 {
            proof {
                assert forall|o: OBJ| #[trigger] o.encodes_at(d, pos as int) && o.well_formed() implies false by {
                    let e = o.encoding();
                    assert(d.subrange(pos as int, pos + e.len()) == e);
                    assert(d.subrange(pos as int, pos + e.len())[0] == d[pos as int]);
                    assert(d.subrange(pos as int, pos + e.len())[1] == d[pos + 1]);
                    assert(d.subrange(pos as int, pos + e.len())[2] == d[pos + 2]);
                    assert(d.subrange(pos as int, pos + e.len())[3] == d[pos + 3]);
                }
            }
            return Err(DecodeError::BadMagic);
        }
        assert(data@.subrange(pos as int, pos + 4) =~= obj_header());
        let mut sections: Vec<Section> = Vec::new();
        let mut p: usize = pos + 4;
        let mut done = false;
        assert(data@.subrange(pos as int, p as int) =~= seq![0x4Cu8, 0x4Eu8, 0x4Bu8, 2u8]
            + sections_encoding(sections@));
        proof {
            assert forall|o: OBJ| #[trigger] o.encodes_at(d, pos as int) && o.well_formed() implies
                sections_encoding(o.sections@.subrange(0, 0)) == sections_encoding(sections@) by {
                assert(o.sections@.subrange(0, 0) =~= sections@);
            }
        }
        while !done
            invariant
                d == data@,
                pos + 4 <= p <= data@.len(),
                data@.subrange(pos as int, pos + 4) == obj_header(),
                data@.subrange(pos as int, p as int) == seq![0x4Cu8, 0x4Eu8, 0x4Bu8, 2u8]
                    + sections_encoding(sections@),
                forall|i: int| 0 <= i < sections@.len() ==> (#[trigger] sections@[i]).well_formed(),
                forall|i: int|
                    0 <= i < sections@.len() - 1 ==> !(#[trigger] sections@[i] is NOP),
                done ==> sections@.len() > 0 && sections@.last() is NOP,
                !done ==> forall|i: int|
                    0 <= i < sections@.len() ==> !(#[trigger] sections@[i] is NOP),
                forall|o: OBJ|
                    #[trigger] o.encodes_at(d, pos as int) && o.well_formed() ==> {
                        &&& sections@.len() <= o.sections@.len()
                        &&& sections_encoding(o.sections@.subrange(0, sections@.len() as int))
                            == sections_encoding(sections@)
                        &&& (done <==> sections@.len() == o.sections@.len())
                    },
            decreases data@.len() - p,
        {
            let ghost k = sections@.len() as int;
            proof {
                assert forall|o: OBJ| #[trigger] o.encodes_at(d, pos as int) && o.well_formed() implies
                    o.sections@[k].encodes_at(d, p as int) by {
                    let os = o.sections@;
                    lemma_sections_encoding_append(os.subrange(0, k), os.subrange(k, os.len() as int));
                    assert(os.subrange(0, k) + os.subrange(k, os.len() as int) =~= os);
                    let rest = os.subrange(k, os.len() as int);
                    lemma_sections_encoding_append(seq![rest[0]], rest.drop_first());
                    assert(seq![rest[0]] + rest.drop_first() =~= rest);
                    assert(sections_encoding(seq![rest[0]]) =~= rest[0].encoding()) by {
                        reveal_with_fuel(sections_encoding, 2);
                        assert(seq![rest[0]].drop_last() =~= Seq::<Section>::empty());
                        assert(seq![rest[0]].last() == rest[0]);
                        assert(Seq::<u8>::empty() + rest[0].encoding() =~= rest[0].encoding());
                    }
                    let e = o.encoding();
                    let n0 = sections_encoding(sections@).len() as int;
                    let n1 = rest[0].encoding().len() as int;
                    assert(d.subrange(pos as int, pos + e.len()) == e);
                    assert(d.subrange(pos as int, p as int).len() == p - pos);
                    assert(p == pos + 4 + n0);
                    assert(e.subrange(4 + n0, 4 + n0 + n1) =~= rest[0].encoding());
                    assert(d.subrange(p as int, p + n1) =~= e.subrange(4 + n0, 4 + n0 + n1));
                }
            }
            let (s, end) = match Section::read(data, p) {
                Ok(x) => x,
                Err(err) => {
                    proof {
                        assert forall|o: OBJ| #[trigger] o.encodes_at(d, pos as int) && o.well_formed() implies false by {
                            assert(o.sections@[k].well_formed());
                            assert(o.sections@[k].encodes_at(d, p as int));
                        }
                    }
                    return Err(err);
                },
            };
            assert(s.encoding().len() > 0);
            let nop = s.is_nop();
            let ghost old_sections = sections@;
            sections.push(s);
            assert(sections@.drop_last() =~= old_sections);
            assert(data@.subrange(pos as int, end as int) =~= data@.subrange(pos as int, p as int)
                + data@.subrange(p as int, end as int));
            proof {
                assert forall|o: OBJ| #[trigger] o.encodes_at(d, pos as int) && o.well_formed() implies {
                    &&& sections@.len() <= o.sections@.len()
                    &&& sections_encoding(o.sections@.subrange(0, sections@.len() as int))
                        == sections_encoding(sections@)
                    &&& (nop <==> sections@.len() == o.sections@.len())
                } by {
                    let os = o.sections@;
                    assert(os[k].well_formed());
                    assert(os[k].encodes_at(d, p as int));
                    assert(os.subrange(0, k + 1).drop_last() =~= os.subrange(0, k));
                    assert(os.subrange(0, k + 1).last() == os[k]);
                    assert(s.encoding()[0] == os[k].encoding()[0]);
                    if k + 1 < os.len() {
                        assert(!(os[k] is NOP));
                    }
                }
            }
            p = end;
            done = nop;
        }
        let o = OBJ { version: 2, sections };
        proof {
            assert forall|x: OBJ| #[trigger] x.encodes_at(d, pos as int) && x.well_formed() implies
                o.encoding() == x.encoding() && p == pos + x.encoding().len() by {
                assert(x.sections@.subrange(0, o.sections@.len() as int) =~= x.sections@);
                assert(o.encoding() =~= x.encoding());
            }
        }
        Ok((o, p))
    }

    /// Appends the encoding of this object file.
    pub fn write(&self, out: &mut Vec<u8>)
        ensures
            final(out)@ == old(out)@ + self.encoding(),
    {
        out.push(0x4C);
        out.push(0x4E);
        out.push(0x4B);
        out.push(self.version);
        let mut i: usize = 0;
        while i < self.sections.len()
            invariant
                i <= self.sections@.len(),
                out@ == old(out)@ + seq![0x4Cu8, 0x4Eu8, 0x4Bu8, self.version] + sections_encoding(
                    self.sections@.subrange(0, i as int),
                ),
            decreases self.sections.len() - i,
        {
            let ghost before = out@;
            self.sections[i].write(out);
            assert(self.sections@.subrange(0, i + 1).drop_last() =~= self.sections@.subrange(
                0,
                i as int,
            ));
            i = i + 1;
            assert(out@ =~= old(out)@ + seq![0x4Cu8, 0x4Eu8, 0x4Bu8, self.version]
                + sections_encoding(self.sections@.subrange(0, i as int)));
        }
        assert(self.sections@.subrange(0, i as int) =~= self.sections@);
        assert(out@ =~= old(out)@ + self.encoding());
    }

    /// The encoding of this object file as a new byte vector.
    pub fn to_bytes(&self) -> (r: Vec<u8>)
        ensures
            r@ == self.encoding(),
    {
        let mut out: Vec<u8> = Vec::new();
        self.write(&mut out);
        assert(out@ =~= self.encoding());
        out
    }

    /// The object format version, 2 for every file the reader accepts.
    pub fn version(&self) -> (r: u8)
        ensures
            r == self.version,
    {
        self.version
    }

    /// The sections in file order, ending with the NOP.
    pub fn sections(&self) -> (r: &Vec<Section>)
        ensures
            r@ == self.sections@,
    {
        &self.sections
    }

    /// The raw names of the observable exports, in file order.
    pub fn export_symbols(&self) -> (r: Vec<Vec<u8>>)
        ensures
            r@.len() == export_names(self.sections@).len(),
            forall|i: int| 0 <= i < r@.len() ==> #[trigger] r@[i]@ == export_names(self.sections@)[i],
    {
        let mut r: Vec<Vec<u8>> = Vec::new();
        let mut i: usize = 0;
        while i < self.sections.len()
            invariant
                i <= self.sections@.len(),
                r@.len() == export_names(self.sections@.subrange(0, i as int)).len(),
                forall|j: int|
                    0 <= j < r@.len() ==> #[trigger] r@[j]@ == export_names(
                        self.sections@.subrange(0, i as int),
                    )[j],
            decreases self.sections.len() - i,
        {
            assert(self.sections@.subrange(0, i + 1).drop_last() =~= self.sections@.subrange(
                0,
                i as int,
            ));
            match &self.sections[i] {
                Section::XDEF(x) => {
                    if x.symbol_name_size > 0 {
                        r.push(x.symbol_name.clone());
                    }
                },
                Section::XBSS(x) => {
                    if x.name_size > 0 {
                        r.push(x.name.clone());
                    }
                },
                _ => {},
            }
            i = i + 1;
        }
        assert(self.sections@.subrange(0, i as int) =~= self.sections@);
        r
    }

    /// The names of the observable exports as text, in file order: each
    /// XDEF and XBSS symbol with a non-empty name.
    pub fn exports(&self) -> (r: Vec<String>)
        ensures
            r@.len() == export_names(self.sections@).len(),
            forall|i: int|
                0 <= i < r@.len() ==> #[trigger] r@[i]@ == lossy_text(export_names(self.sections@)[i]),
            forall|i: int|
                0 <= i < r@.len() && valid_utf8(export_names(self.sections@)[i]) ==> #[trigger] r@[i]@
                    == decode_utf8(export_names(self.sections@)[i]),
    {
        let raw = self.export_symbols();
        let mut r: Vec<String> = Vec::new();
        let mut i: usize = 0;
        while i < raw.len()
            invariant
                i <= raw@.len(),
                r@.len() == i,
                forall|j: int| 0 <= j < i ==> #[trigger] r@[j]@ == lossy_text(raw@[j]@),
                forall|j: int|
                    0 <= j < i && valid_utf8(raw@[j]@) ==> #[trigger] r@[j]@ == decode_utf8(raw@[j]@),
            decreases raw.len() - i,
        {
            r.push(text_of(&raw[i]));
            i = i + 1;
        }
        r
    }
}

/// Byte-exact round trip: an object file that the reader accepts at `pos`
/// is written back as exactly the bytes it was read from, its NOP included.
pub proof fn lemma_obj_round_trip(data: Seq<u8>, pos: int, end: int, o: OBJ)
    requires
        holds_at(data, pos, end, o.encoding()),
        o.well_formed(),
    ensures
        o.encoding() == data.subrange(pos, end),
        o.sections@.last() is NOP,
{
}

} // verus!
