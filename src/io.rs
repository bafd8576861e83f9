//! Whole-file entry points: telling an archive from an object file, reading
//! either from its bytes, and producing the bytes to store.
use vstd::prelude::*;

use crate::codec::DecodeError;
use crate::library::LIB;
use crate::object::OBJ;

verus! {

/// A decoded file: an object file or an archive.
#[derive(Debug)]
pub enum Type {
    OBJ(OBJ),
    LIB(LIB),
}

/// The bytes begin with `"LIB"`.
pub open spec fn starts_as_lib(bytes: Seq<u8>) -> bool {
    bytes.len() >= 3 && bytes[0] == 0x4C && bytes[1] == 0x49 && bytes[2] == 0x42
}

/// The bytes begin with `"LNK"`.
pub open spec fn starts_as_obj(bytes: Seq<u8>) -> bool {
    bytes.len() >= 3 && bytes[0] == 0x4C && bytes[1] == 0x4E && bytes[2] == 0x4B
}

/// Reads an archive or an object file, as its first three bytes say.
pub fn read(bytes: &[u8]) -> (r: Result<Type, DecodeError>)
    ensures
        !starts_as_lib(bytes@) && !starts_as_obj(bytes@) ==> r == Err::<Type, DecodeError>(
            DecodeError::BadMagic,
        ),
        r matches Ok(Type::LIB(l)) ==> starts_as_lib(bytes@) && l.decodes_from(bytes@),
        forall|l: LIB|
            #[trigger] l.decodes_from(bytes@) ==> (r matches Ok(Type::LIB(x)) && x.encoding()
                == l.encoding()),
        forall|o: OBJ|
            #[trigger] o.encodes_at(bytes@, 0) && o.well_formed() ==> (r matches Ok(Type::OBJ(x))
                && x.encoding() == o.encoding()),
        r matches Ok(Type::OBJ(o)) ==> starts_as_obj(bytes@) && o.well_formed()
            && o.encoding().len() <= bytes@.len() && bytes@.subrange(0, o.encoding().len() as int)
            == o.encoding(),
{
    proof {
        assert forall|l: LIB| #[trigger] l.decodes_from(bytes@) implies starts_as_lib(bytes@) by {
            assert(l.encoding()[0] == bytes@[0] && l.encoding()[1] == bytes@[1] && l.encoding()[2]
                == bytes@[2]);
        }
        assert forall|o: OBJ| #[trigger] o.encodes_at(bytes@, 0) && o.well_formed() implies starts_as_obj(
            bytes@,
        ) by {
            let e = o.encoding();
            assert(bytes@.subrange(0, e.len() as int) == e);
            assert(bytes@.subrange(0, e.len() as int)[0] == bytes@[0]);
            assert(bytes@.subrange(0, e.len() as int)[1] == bytes@[1]);
            assert(bytes@.subrange(0, e.len() as int)[2] == bytes@[2]);
        }
    }
    if bytes.len() < 3 {
        return Err(DecodeError::BadMagic);
    }
    if bytes[0] == 0x4C && bytes[1] == 0x49 && bytes[2] == 0x42 {
        let l = LIB::read(bytes)?;
        Ok(Type::LIB(l))
    } else if bytes[0] == 0x4C && bytes[1] == 0x4E && bytes[2] == 0x4B {
        let (o, _end) = OBJ::read(bytes, 0)?;
        Ok(Type::OBJ(o))
    } else {
        Err(DecodeError::BadMagic)
    }
}

/// Reads an object file from the start of `bytes`.
pub fn read_obj(bytes: &[u8]) -> (r: Result<OBJ, DecodeError>)
    ensures
        r matches Ok(o) ==> o.well_formed() && o.encoding().len() <= bytes@.len()
            && bytes@.subrange(0, o.encoding().len() as int) == o.encoding(),
        forall|o: OBJ|
            #[trigger] o.encodes_at(bytes@, 0) && o.well_formed() ==> (r matches Ok(x) && x.encoding()
                == o.encoding()),
        !(4 <= bytes@.len() && bytes@.subrange(0, 4) == crate::object::obj_header()) ==> r
            == Err::<OBJ, DecodeError>(DecodeError::BadMagic),
{
    let (o, _end) = OBJ::read(bytes, 0)?;
    Ok(o)
}

/// Reads an archive that fills `bytes`.
pub fn read_lib(bytes: &[u8]) -> (r: Result<LIB, DecodeError>)
    ensures
        r matches Ok(l) ==> l.decodes_from(bytes@),
        forall|l: LIB|
            #[trigger] l.decodes_from(bytes@) ==> (r matches Ok(x) && x.encoding() == l.encoding()),
        !(4 <= bytes@.len() && bytes@.subrange(0, 4) == crate::library::lib_header()) ==> r
            == Err::<LIB, DecodeError>(DecodeError::BadMagic),
        bytes@ == crate::library::lib_header() ==> r == Err::<LIB, DecodeError>(
            DecodeError::EmptyArchive,
        ),
{
    LIB::read(bytes)
}

/// The bytes that store `obj`.
pub fn write_obj(obj: &OBJ) -> (r: Vec<u8>)
    ensures
        r@ == obj.encoding(),
{
    obj.to_bytes()
}

/// The bytes that store `lib`.
pub fn write_lib(lib: &LIB) -> (r: Vec<u8>)
    ensures
        r@ == lib.encoding(),
{
    lib.to_bytes()
}

} // verus!
