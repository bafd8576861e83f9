//! Little-endian primitives shared by the object and archive codecs.
use vstd::prelude::*;

verus! {

/// Why a byte stream could not be decoded.
#[derive(Debug, Clone, Copy, PartialEq, Eq, Structural)]
pub enum DecodeError {
    /// The stream ended in the middle of a record.
    Truncated,
    /// A byte where a section tag was expected names no section.
    UnknownSectionTag(u8),
    /// A byte where an expression tag was expected names no expression.
    UnknownExpressionTag(u8),
    /// The leading bytes are not the expected magic and version.
    BadMagic,
    /// An archive holds no module.
    EmptyArchive,
    /// A module path has no file name to take the module's name from.
    InvalidPath,
    /// A module's offset or size does not fit in 32 bits.
    ModuleTooLarge,
    /// A dimension record holds neither 0 nor 1.
    UnknownDimension(u16),
    /// An expression nests deeper than the reader accepts.
    NestingTooDeep,
}

/// The two bytes of `v`, low byte first.
pub open spec fn le16(v: u16) -> Seq<u8> {
    seq![v as u8, (v >> 8u16) as u8]
}

/// The four bytes of `v`, low byte first.
pub open spec fn le32(v: u32) -> Seq<u8> {
    seq![v as u8, (v >> 8u32) as u8, (v >> 16u32) as u8, (v >> 24u32) as u8]
}

/// A byte string preceded by its one-byte length field.
pub open spec fn counted(size: u8, bytes: Seq<u8>) -> Seq<u8> {
    seq![size] + bytes
}

/// `data[pos..end]` holds exactly `enc`.
pub open spec fn holds_at(data: Seq<u8>, pos: int, end: int, enc: Seq<u8>) -> bool {
    &&& 0 <= pos <= end <= data.len()
    &&& data.subrange(pos, end) == enc
}

proof fn lemma_le16_bits(b0: u8, b1: u8)
    ensures
        ((b0 as u16) | ((b1 as u16) << 8u16)) as u8 == b0,
        (((b0 as u16) | ((b1 as u16) << 8u16)) >> 8u16) as u8 == b1,
{
    assert(((b0 as u16) | ((b1 as u16) << 8u16)) as u8 == b0) by (bit_vector);
    assert((((b0 as u16) | ((b1 as u16) << 8u16)) >> 8u16) as u8 == b1) by (bit_vector);
}

proof fn lemma_le32_bits(b0: u8, b1: u8, b2: u8, b3: u8)
    ensures
        ({
            let v = (b0 as u32) | ((b1 as u32) << 8u32) | ((b2 as u32) << 16u32) | ((b3 as u32)
                << 24u32);
            v as u8 == b0 && (v >> 8u32) as u8 == b1 && (v >> 16u32) as u8 == b2 && (v >> 24u32)
                as u8 == b3
        }),
{
    assert(({
        let v = (b0 as u32) | ((b1 as u32) << 8u32) | ((b2 as u32) << 16u32) | ((b3 as u32)
            << 24u32);
        v as u8 == b0 && (v >> 8u32) as u8 == b1 && (v >> 16u32) as u8 == b2 && (v >> 24u32) as u8
            == b3
    })) by (bit_vector);
}

/// Two values with the same two bytes are equal.
pub proof fn lemma_le16_injective(x: u16, y: u16)
    requires
        le16(x) == le16(y),
    ensures
        x == y,
{
    assert(le16(x)[0] == le16(y)[0] && le16(x)[1] == le16(y)[1]);
    assert(x as u8 == y as u8 && (x >> 8u16) as u8 == (y >> 8u16) as u8 ==> x == y) by (bit_vector);
}

/// Two values with the same four bytes are equal.
pub proof fn lemma_le32_injective(x: u32, y: u32)
    requires
        le32(x) == le32(y),
    ensures
        x == y,
{
    assert(le32(x)[0] == le32(y)[0] && le32(x)[1] == le32(y)[1] && le32(x)[2] == le32(y)[2]
        && le32(x)[3] == le32(y)[3]);
    assert(x as u8 == y as u8 && (x >> 8u32) as u8 == (y >> 8u32) as u8 && (x >> 16u32) as u8 == (y
        >> 16u32) as u8 && (x >> 24u32) as u8 == (y >> 24u32) as u8 ==> x == y) by (bit_vector);
}

/// Two signed values with the same bits are equal.
pub proof fn lemma_i32_bits(x: i32, y: i32)
    requires
        x as u32 == y as u32,
    ensures
        x == y,
{
    assert(x as u32 == y as u32 ==> x == y) by (bit_vector);
}

/// Reads one byte at `pos`.
pub fn read_u8(data: &[u8], pos: usize) -> (r: Result<(u8, usize), DecodeError>)
    ensures
        r is Ok <==> pos < data@.len(),
        r matches Ok((v, end)) ==> end == pos + 1 && holds_at(data@, pos as int, end as int, seq![v]),
        r matches Err(e) ==> e == DecodeError::Truncated,
{
    if pos >= data.len() {
        return Err(DecodeError::Truncated);
    }
    let v = data[pos];
    assert(data@.subrange(pos as int, pos + 1) =~= seq![v]);
    Ok((v, pos + 1))
}

/// Reads a little-endian `u16` at `pos`.
pub fn read_u16(data: &[u8], pos: usize) -> (r: Result<(u16, usize), DecodeError>)
    ensures
        r is Ok <==> pos + 2 <= data@.len(),
        r matches Ok((v, end)) ==> end == pos + 2 && holds_at(data@, pos as int, end as int, le16(v)),
        r matches Err(e) ==> e == DecodeError::Truncated,
{
    if pos >= data.len() || data.len() - pos < 2 {
        return Err(DecodeError::Truncated);
    }
    let b0 = data[pos];
    let b1 = data[pos + 1];
    let v = (b0 as u16) | ((b1 as u16) << 8u16);
    proof {
        lemma_le16_bits(b0, b1);
    }
    assert(data@.subrange(pos as int, pos + 2) =~= le16(v));
    Ok((v, pos + 2))
}

/// Reads a little-endian `u32` at `pos`.
pub fn read_u32(data: &[u8], pos: usize) -> (r: Result<(u32, usize), DecodeError>)
    ensures
        r is Ok <==> pos + 4 <= data@.len(),
        r matches Ok((v, end)) ==> end == pos + 4 && holds_at(data@, pos as int, end as int, le32(v)),
        r matches Err(e) ==> e == DecodeError::Truncated,
{
    if pos >= data.len() || data.len() - pos < 4 {
        return Err(DecodeError::Truncated);
    }
    let b0 = data[pos];
    let b1 = data[pos + 1];
    let b2 = data[pos + 2];
    let b3 = data[pos + 3];
    let v = (b0 as u32) | ((b1 as u32) << 8u32) | ((b2 as u32) << 16u32) | ((b3 as u32) << 24u32);
    proof {
        lemma_le32_bits(b0, b1, b2, b3);
    }
    assert(data@.subrange(pos as int, pos + 4) =~= le32(v));
    Ok((v, pos + 4))
}

/// Reads `n` raw bytes at `pos`.
pub fn read_raw(data: &[u8], pos: usize, n: usize) -> (r: Result<(Vec<u8>, usize), DecodeError>)
    ensures
        r is Ok <==> pos + n <= data@.len(),
        r matches Ok((v, end)) ==> end == pos + n && v@.len() == n && holds_at(
            data@,
            pos as int,
            end as int,
            v@,
        ),
        r matches Err(e) ==> e == DecodeError::Truncated,
{
    if pos > data.len() || data.len() - pos < n {
        return Err(DecodeError::Truncated);
    }
    let mut out: Vec<u8> = Vec::new();
    let mut i: usize = 0;
    while i < n
        invariant
            i <= n,
            pos + n <= data@.len(),
            data@.len() == data.len(),
            out@ =~= data@.subrange(pos as int, pos + i),
        decreases n - i,
    {
        out.push(data[pos + i]);
        i = i + 1;
        assert(out@ =~= data@.subrange(pos as int, pos + i));
    }
    Ok((out, pos + n))
}

/// Reads a byte string preceded by its one-byte length.
pub fn read_counted(data: &[u8], pos: usize) -> (r: Result<(u8, Vec<u8>, usize), DecodeError>)
    ensures
        r is Ok <==> (pos < data@.len() && pos + 1 + data@[pos as int] <= data@.len()),
        r matches Ok((size, v, end)) ==> v@.len() == size && end == pos + 1 + size && holds_at(
            data@,
            pos as int,
            end as int,
            counted(size, v@),
        ),
        r matches Err(e) ==> e == DecodeError::Truncated,
{
    let (size, p) = read_u8(data, pos)?;
    assert(data@.subrange(pos as int, p as int)[0] == data@[pos as int]);
    let (v, end) = read_raw(data, p, size as usize)?;
    assert(data@.subrange(pos as int, end as int) =~= data@.subrange(pos as int, p as int)
        + data@.subrange(p as int, end as int));
    Ok((size, v, end))
}

/// Appends one byte.
pub fn write_u8(out: &mut Vec<u8>, v: u8)
    ensures
        final(out)@ == old(out)@ + seq![v],
{
    out.push(v);
    assert(out@ =~= old(out)@ + seq![v]);
}

/// Appends `v` as two little-endian bytes.
pub fn write_u16(out: &mut Vec<u8>, v: u16)
    ensures
        final(out)@ == old(out)@ + le16(v),
{
    out.push(v as u8);
    out.push((v >> 8u16) as u8);
    assert(out@ =~= old(out)@ + le16(v));
}

/// Appends `v` as four little-endian bytes.
pub fn write_u32(out: &mut Vec<u8>, v: u32)
    ensures
        final(out)@ == old(out)@ + le32(v),
{
    out.push(v as u8);
    out.push((v >> 8u32) as u8);
    out.push((v >> 16u32) as u8);
    out.push((v >> 24u32) as u8);
    assert(out@ =~= old(out)@ + le32(v));
}

/// Appends raw bytes.
pub fn write_raw(out: &mut Vec<u8>, bytes: &Vec<u8>)
    ensures
        final(out)@ == old(out)@ + bytes@,
{
    let mut i: usize = 0;
    while i < bytes.len()
        invariant
            i <= bytes@.len(),
            out@ =~= old(out)@ + bytes@.subrange(0, i as int),
        decreases bytes.len() - i,
    {
        out.push(bytes[i]);
        i = i + 1;
        assert(out@ =~= old(out)@ + bytes@.subrange(0, i as int));
    }
    assert(bytes@.subrange(0, bytes@.len() as int) =~= bytes@);
}

/// Appends a length byte followed by the bytes it counts.
pub fn write_counted(out: &mut Vec<u8>, size: u8, bytes: &Vec<u8>)
    ensures
        final(out)@ == old(out)@ + counted(size, bytes@),
{
    write_u8(out, size);
    write_raw(out, bytes);
    assert(out@ =~= old(out)@ + counted(size, bytes@));
}

} // verus!
