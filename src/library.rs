//! Archives: a header followed by modules, each an object file with its
//! name, timestamp and export table.
use vstd::prelude::*;
use vstd::utf8::encode_utf8;

use crate::codec::{
    counted, holds_at, le32, read_counted, read_raw, read_u32, write_counted, write_raw, write_u32,
    DecodeError,
};
use crate::module_name::{module_name_of, path_has_prefix, path_to_module_name};
use crate::object::{export_names, sections_encoding, OBJ};
use crate::text::{lossy_text, text_of};
use vstd::utf8::{decode_utf8, valid_utf8};
use crate::timestamp::{decode_timestamp, PsyqDateTime};

verus! {

/// The magic and version that begin an archive: `"LIB"`, 1.
pub open spec fn lib_header() -> Seq<u8> {
    seq![0x4Cu8, 0x49u8, 0x42u8, 1u8]
}

/// An entry of a module's export table. The table ends with an entry whose
/// name is empty.
#[derive(Debug, Clone, PartialEq)]
pub struct Export {
    pub name_size: u8,
    pub name: Vec<u8>,
}

/// The text shown for a stored export name: a leading 0 byte is shown as `*`.
pub open spec fn export_display_bytes(name: Seq<u8>) -> Seq<u8> {
    if name.len() > 0 && name[0] == 0 {
        seq![0x2Au8] + name.drop_first()
    } else {
        name
    }
}

impl Export {
    /// The bytes that store this entry.
    pub open spec fn encoding(self) -> Seq<u8> {
        counted(self.name_size, self.name@)
    }

    /// The entry for `name`, cut to its first 255 bytes.
    pub fn new(name: String) -> (r: Export)
        ensures
            r.name@ == encode_utf8(name@).subrange(
                0,
                vstd::math::min(encode_utf8(name@).len() as int, 255),
            ),
            r.name_size == r.name@.len(),
    {
        let bytes = name.as_str().as_bytes();
        let n: usize = if bytes.len() > 255 {
            255
        } else {
            bytes.len()
        };
        let mut v: Vec<u8> = Vec::new();
        let mut i: usize = 0;
        while i < n
            invariant
                n <= bytes@.len(),
                i <= n,
                v@ =~= bytes@.subrange(0, i as int),
            decreases n - i,
        {
            v.push(bytes[i]);
            i = i + 1;
            assert(v@ =~= bytes@.subrange(0, i as int));
        }
        Export { name_size: n as u8, name: v }
    }

    /// The entry that ends an export table.
    pub fn empty() -> (r: Export)
        ensures
            r.name_size == 0,
            r.name@.len() == 0,
    {
        Export { name_size: 0, name: Vec::new() }
    }

    /// The name as text; a leading 0 byte marks a starred symbol and is shown
    /// as `*`.
    pub fn name(&self) -> (r: String)
        ensures
            r@ == lossy_text(export_display_bytes(self.name@)),
            valid_utf8(export_display_bytes(self.name@)) ==> r@ == decode_utf8(
                export_display_bytes(self.name@),
            ),
    {
        if self.name.len() > 0 && self.name[0] == 0 {
            let mut v: Vec<u8> = Vec::new();
            v.push(0x2A);
            let mut i: usize = 1;
            while i < self.name.len()
                invariant
                    1 <= i <= self.name@.len(),
                    v@ =~= seq![0x2Au8] + self.name@.subrange(1, i as int),
                decreases self.name.len() - i,
            {
                v.push(self.name[i]);
                i = i + 1;
                assert(v@ =~= seq![0x2Au8] + self.name@.subrange(1, i as int));
            }
            assert(self.name@.subrange(1, i as int) =~= self.name@.drop_first());
            assert(v@ =~= export_display_bytes(self.name@));
            text_of(&v)
        } else {
            text_of(&self.name)
        }
    }
}

/// The concatenated encodings of `s`, in order.
pub open spec fn exports_encoding(s: Seq<Export>) -> Seq<u8>
    decreases s.len(),
{
    if s.len() == 0 {
        Seq::empty()
    } else {
        exports_encoding(s.drop_last()) + s.last().encoding()
    }
}

/// The encoding of a concatenation is the concatenation of the encodings.
pub proof fn lemma_exports_encoding_append(a: Seq<Export>, b: Seq<Export>)
    ensures
        exports_encoding(a + b) == exports_encoding(a) + exports_encoding(b),
    decreases b.len(),
{
    if b.len() == 0 {
        assert(a + b =~= a);
        assert(exports_encoding(a) + exports_encoding(b) =~= exports_encoding(a));
    } else {
        lemma_exports_encoding_append(a, b.drop_last());
        assert((a + b).drop_last() =~= a + b.drop_last());
        assert(exports_encoding(a + b) =~= exports_encoding(a) + exports_encoding(b));
    }
}

/// ASCII whitespace as `u8::is_ascii_whitespace` defines it.
pub open spec fn is_ascii_space(b: u8) -> bool {
    b == 0x20 || b == 0x09 || b == 0x0A || b == 0x0C || b == 0x0D
}

/// The length of `name` once trailing ASCII whitespace is removed.
pub open spec fn trimmed_len(name: Seq<u8>) -> nat
    decreases name.len(),
{
    if name.len() == 0 {
        0
    } else if is_ascii_space(name.last()) {
        trimmed_len(name.drop_last())
    } else {
        name.len()
    }
}

/// The names of the non-empty entries of an export table, in order.
pub open spec fn table_names(s: Seq<Export>) -> Seq<Seq<u8>>
    decreases s.len(),
{
    if s.len() == 0 {
        Seq::empty()
    } else if s.last().name@.len() > 0 {
        table_names(s.drop_last()).push(s.last().name@)
    } else {
        table_names(s.drop_last())
    }
}

/// The metadata of a module in an archive.
#[derive(Debug, Clone, PartialEq)]
pub struct ModuleMetadata {
    /// Eight bytes, upper case, padded with spaces.
    pub name: [u8; 8],
    /// A packed timestamp.
    pub created: u32,
    /// The distance from the start of the module record to its object file.
    pub offset: u32,
    pub size: u32,
    /// The export table, its empty terminating entry included.
    pub exports: Vec<Export>,
}

impl ModuleMetadata {
    /// The bytes that store this metadata.
    pub open spec fn encoding(self) -> Seq<u8> {
        self.name@ + le32(self.created) + le32(self.offset) + le32(self.size) + exports_encoding(
            self.exports@,
        )
    }

    /// The shape that the reader produces: a table whose only empty entry is
    /// the last, and length fields that count their bytes.
    pub open spec fn well_formed(self) -> bool {
        &&& self.exports@.len() > 0
        &&& self.exports@.last().name_size == 0
        &&& forall|i: int|
            0 <= i < self.exports@.len() ==> (#[trigger] self.exports@[i]).name@.len()
                == self.exports@[i].name_size
        &&& forall|i: int|
            0 <= i < self.exports@.len() - 1 ==> (#[trigger] self.exports@[i]).name_size != 0
    }

    /// `data` holds the encoding of this metadata from `pos` on.
    pub open spec fn encodes_at(self, data: Seq<u8>, pos: int) -> bool {
        holds_at(data, pos, pos + self.encoding().len(), self.encoding())
    }

    /// Reads the metadata that begins at `pos`. It succeeds exactly when
    /// well-formed metadata is stored there.
    #[verifier::rlimit(100)]
    pub fn read(data: &[u8], pos: usize) -> (r: Result<(ModuleMetadata, usize), DecodeError>)
        ensures
            r matches Ok((m, end)) ==> holds_at(data@, pos as int, end as int, m.encoding())
                && m.well_formed(),
            forall|m: ModuleMetadata|
                #[trigger] m.encodes_at(data@, pos as int) && m.well_formed() ==> (r matches Ok(
                    (x, end),
                ) && end == pos + m.encoding().len() && x.encoding() == m.encoding()),
            r matches Err(e) ==> e is Truncated,
    {
        let ghost d = data@;
        proof {
            assert forall|m: ModuleMetadata| #[trigger] m.encodes_at(d, pos as int) implies pos + 20
                <= d.len() && d.subrange(pos as int, pos + 20) == m.encoding().subrange(0, 20) by {
                assert(d.subrange(pos as int, pos + 20) =~= d.subrange(
                    pos as int,
                    pos + m.encoding().len(),
                ).subrange(0, 20));
            }
        }
        if pos > data.len() || data.len() - pos < 20 {
            return Err(DecodeError::Truncated);
        }
        let name: [u8; 8] = [
            data[pos],
            data[pos + 1],
            data[pos + 2],
            data[pos + 3],
            data[pos + 4],
            data[pos + 5],
            data[pos + 6],
            data[pos + 7],
        ];
        assert(name@ =~= data@.subrange(pos as int, pos + 8));
        let (created, p1) = read_u32(data, pos + 8)?;
        let (offset, p2) = read_u32(data, p1)?;
        let (size, p3) = read_u32(data, p2)?;
        assert(data@.subrange(pos as int, p3 as int) =~= data@.subrange(pos as int, pos + 8)
            + data@.subrange(pos + 8, p1 as int) + data@.subrange(p1 as int, p2 as int)
            + data@.subrange(p2 as int, p3 as int));
        let mut exports: Vec<Export> = Vec::new();
        let mut p: usize = p3;
        let mut done = false;
        assert(data@.subrange(p3 as int, p as int) =~= exports_encoding(exports@));
        proof {
            assert forall|m: ModuleMetadata| #[trigger] m.encodes_at(d, pos as int) && m.well_formed() implies
                exports_encoding(m.exports@.subrange(0, 0)) == exports_encoding(exports@) by {
                assert(m.exports@.subrange(0, 0) =~= exports@);
            }
        }
        while !done
            invariant
                d == data@,
                pos + 20 == p3,
                p3 <= p <= data@.len(),
                data@.subrange(p3 as int, p as int) == exports_encoding(exports@),
                forall|i: int|
                    0 <= i < exports@.len() ==> (#[trigger] exports@[i]).name@.len()
                        == exports@[i].name_size,
                forall|i: int| 0 <= i < exports@.len() - 1 ==> (#[trigger] exports@[i]).name_size != 0,
                done ==> exports@.len() > 0 && exports@.last().name_size == 0,
                !done ==> forall|i: int|
                    0 <= i < exports@.len() ==> (#[trigger] exports@[i]).name_size != 0,
                forall|m: ModuleMetadata|
                    #[trigger] m.encodes_at(d, pos as int) && m.well_formed() ==> {
                        &&& exports@.len() <= m.exports@.len()
                        &&& exports_encoding(m.exports@.subrange(0, exports@.len() as int))
                            == exports_encoding(exports@)
                        &&& (done <==> exports@.len() == m.exports@.len())
                    },
            decreases data@.len() - p,
        {
            let ghost k = exports@.len() as int;
            proof {
                assert forall|m: ModuleMetadata| #[trigger] m.encodes_at(d, pos as int) && m.well_formed() implies
                    holds_at(d, p as int, p + m.exports@[k].encoding().len(), m.exports@[k].encoding()) by {
                    let xs = m.exports@;
                    lemma_exports_encoding_append(xs.subrange(0, k), xs.subrange(k, xs.len() as int));
                    assert(xs.subrange(0, k) + xs.subrange(k, xs.len() as int) =~= xs);
                    let rest = xs.subrange(k, xs.len() as int);
                    lemma_exports_encoding_append(seq![rest[0]], rest.drop_first());
                    assert(seq![rest[0]] + rest.drop_first() =~= rest);
                    assert(exports_encoding(seq![rest[0]]) =~= rest[0].encoding()) by {
                        reveal_with_fuel(exports_encoding, 2);
                        assert(seq![rest[0]].drop_last() =~= Seq::<Export>::empty());
                        assert(seq![rest[0]].last() == rest[0]);
                        assert(Seq::<u8>::empty() + rest[0].encoding() =~= rest[0].encoding());
                    }
                    let e = m.encoding();
                    let n0 = exports_encoding(exports@).len() as int;
                    let n1 = rest[0].encoding().len() as int;
                    assert(d.subrange(pos as int, pos + e.len()) == e);
                    assert(d.subrange(p3 as int, p as int).len() == p - p3);
                    assert(p == pos + 20 + n0);
                    assert(e.subrange(20 + n0, 20 + n0 + n1) =~= rest[0].encoding());
                    assert(d.subrange(p as int, p + n1) =~= e.subrange(20 + n0, 20 + n0 + n1));
                }
            }
            let (name_size, name, end) = match read_counted(data, p) {
                Ok(x) => x,
                Err(err) => {
                    proof {
                        assert forall|m: ModuleMetadata| #[trigger] m.encodes_at(d, pos as int) && m.well_formed() implies false by {
                            let x = m.exports@[k];
                            assert(x.name@.len() == x.name_size);
                            assert(holds_at(d, p as int, p + x.encoding().len(), x.encoding()));
                            assert(d.subrange(p as int, p + x.encoding().len())[0] == d[p as int]);
                        }
                    }
                    return Err(err);
                },
            };
            let e = Export { name_size, name };
            let ghost old_exports = exports@;
            exports.push(e);
            assert(exports@.drop_last() =~= old_exports);
            assert(data@.subrange(p3 as int, end as int) =~= data@.subrange(p3 as int, p as int)
                + data@.subrange(p as int, end as int));
            proof {
                assert forall|m: ModuleMetadata| #[trigger] m.encodes_at(d, pos as int) && m.well_formed() implies {
                    &&& exports@.len() <= m.exports@.len()
                    &&& exports_encoding(m.exports@.subrange(0, exports@.len() as int))
                        == exports_encoding(exports@)
                    &&& (name_size == 0 <==> exports@.len() == m.exports@.len())
                } by {
                    let xs = m.exports@;
                    let x = xs[k];
                    assert(x.name@.len() == x.name_size);
                    assert(holds_at(d, p as int, p + x.encoding().len(), x.encoding()));
                    assert(d.subrange(p as int, p + x.encoding().len())[0] == d[p as int]);
                    assert(d.subrange(p as int, end as int)[0] == d[p as int]);
                    assert(e.encoding() =~= x.encoding()) by {
                        assert(d.subrange(p as int, end as int) =~= d.subrange(
                            p as int,
                            p + x.encoding().len(),
                        ));
                    }
                    assert(xs.subrange(0, k + 1).drop_last() =~= xs.subrange(0, k));
                    assert(xs.subrange(0, k + 1).last() == x);
                }
            }
            p = end;
            done = name_size == 0;
        }
        let m = ModuleMetadata { name, created, offset, size, exports };
        assert(data@.subrange(pos as int, p as int) =~= data@.subrange(pos as int, p3 as int)
            + data@.subrange(p3 as int, p as int));
        proof {
            assert forall|x: ModuleMetadata| #[trigger] x.encodes_at(d, pos as int) && x.well_formed() implies
                m.encoding() == x.encoding() && p == pos + x.encoding().len() by {
                assert(x.exports@.subrange(0, m.exports@.len() as int) =~= x.exports@);
                assert(x.encoding().subrange(0, 20) =~= m.encoding().subrange(0, 20)) by {
                    assert(m.encoding().subrange(0, 20) =~= d.subrange(pos as int, p3 as int));
                }
                assert(m.encoding() =~= m.encoding().subrange(0, 20) + exports_encoding(m.exports@));
                assert(x.encoding() =~= x.encoding().subrange(0, 20) + exports_encoding(x.exports@));
            }
        }
        Ok((m, p))
    }

    /// Appends the encoding of this metadata.
    pub fn write(&self, out: &mut Vec<u8>)
        ensures
            final(out)@ == old(out)@ + self.encoding(),
    {
        let mut i: usize = 0;
        while i < 8
            invariant
                i <= 8,
                out@ =~= old(out)@ + self.name@.subrange(0, i as int),
            decreases 8 - i,
        {
            out.push(self.name[i]);
            i = i + 1;
            assert(out@ =~= old(out)@ + self.name@.subrange(0, i as int));
        }
        assert(self.name@.subrange(0, 8) =~= self.name@);
        write_u32(out, self.created);
        write_u32(out, self.offset);
        write_u32(out, self.size);
        let ghost head = out@;
        let mut j: usize = 0;
        while j < self.exports.len()
            invariant
                j <= self.exports@.len(),
                out@ == head + exports_encoding(self.exports@.subrange(0, j as int)),
            decreases self.exports.len() - j,
        {
            write_counted(out, self.exports[j].name_size, &self.exports[j].name);
            assert(self.exports@.subrange(0, j + 1).drop_last() =~= self.exports@.subrange(
                0,
                j as int,
            ));
            j = j + 1;
            assert(out@ =~= head + exports_encoding(self.exports@.subrange(0, j as int)));
        }
        assert(self.exports@.subrange(0, j as int) =~= self.exports@);
        assert(out@ =~= old(out)@ + self.encoding());
    }

    /// The module name without its trailing whitespace.
    pub fn name(&self) -> (r: String)
        ensures
            r@ == lossy_text(self.name@.subrange(0, trimmed_len(self.name@) as int)),
            valid_utf8(self.name@.subrange(0, trimmed_len(self.name@) as int)) ==> r@
                == decode_utf8(self.name@.subrange(0, trimmed_len(self.name@) as int)),
    {
        let mut end: usize = 8;
        assert(self.name@.subrange(0, 8) =~= self.name@);
        while end > 0 && (self.name[end - 1] == 0x20 || self.name[end - 1] == 0x09 || self.name[end
            - 1] == 0x0A || self.name[end - 1] == 0x0C || self.name[end - 1] == 0x0D)
            invariant
                end <= 8,
                trimmed_len(self.name@.subrange(0, end as int)) == trimmed_len(self.name@),
            decreases end,
        {
            assert(self.name@.subrange(0, end as int).drop_last() =~= self.name@.subrange(
                0,
                end - 1,
            ));
            end = end - 1;
        }
        assert(self.name@.subrange(0, 8) =~= self.name@);
        let mut v: Vec<u8> = Vec::new();
        let mut i: usize = 0;
        while i < end
            invariant
                end <= 8,
                i <= end,
                v@ =~= self.name@.subrange(0, i as int),
            decreases end - i,
        {
            v.push(self.name[i]);
            i = i + 1;
            assert(v@ =~= self.name@.subrange(0, i as int));
        }
        text_of(&v)
    }

    /// The names of the table's non-empty entries, as text.
    pub fn exports(&self) -> (r: Vec<String>)
        ensures
            r@.len() == table_names(self.exports@).len(),
            forall|i: int|
                0 <= i < r@.len() ==> #[trigger] r@[i]@ == lossy_text(
                    export_display_bytes(table_names(self.exports@)[i]),
                ),
            forall|i: int|
                0 <= i < r@.len() && valid_utf8(export_display_bytes(table_names(self.exports@)[i]))
                    ==> #[trigger] r@[i]@ == decode_utf8(export_display_bytes(table_names(self.exports@)[i])),
    {
        let mut r: Vec<String> = Vec::new();
        let mut i: usize = 0;
        while i < self.exports.len()
            invariant
                i <= self.exports@.len(),
                r@.len() == table_names(self.exports@.subrange(0, i as int)).len(),
                forall|j: int|
                    0 <= j < r@.len() ==> #[trigger] r@[j]@ == lossy_text(
                        export_display_bytes(table_names(self.exports@.subrange(0, i as int))[j]),
                    ),
                forall|j: int|
                    0 <= j < r@.len() && valid_utf8(
                        export_display_bytes(table_names(self.exports@.subrange(0, i as int))[j]),
                    ) ==> #[trigger] r@[j]@ == decode_utf8(
                        export_display_bytes(table_names(self.exports@.subrange(0, i as int))[j]),
                    ),
            decreases self.exports.len() - i,
        {
            assert(self.exports@.subrange(0, i + 1).drop_last() =~= self.exports@.subrange(
                0,
                i as int,
            ));
            if self.exports[i].name.len() > 0 {
                r.push(self.exports[i].name());
            }
            i = i + 1;
        }
        assert(self.exports@.subrange(0, i as int) =~= self.exports@);
        r
    }

    /// The creation time, if the stored word is a valid date and time.
    pub fn created_datetime(&self) -> (r: Option<PsyqDateTime>)
        ensures
            r == decode_timestamp(self.created),
    {
        PsyqDateTime::from_psyq_timestamp(self.created)
    }

    /// The creation time as `DD-MM-YY HH:MM:SS`.
    pub fn created(&self) -> (r: String)
        requires
            decode_timestamp(self.created) is Some,
        ensures
            r@ == lossy_text(decode_timestamp(self.created)->0.listing_bytes()),
            valid_utf8(decode_timestamp(self.created)->0.listing_bytes()) ==> r@ == decode_utf8(
                decode_timestamp(self.created)->0.listing_bytes(),
            ),
    {
        let t = PsyqDateTime::from_psyq_timestamp(self.created);
        match t {
            Some(dt) => dt.to_listing(),
            None => String::new(),
        }
    }

    /// The creation time in seconds since the Unix epoch, the stored
    /// date and time read as UTC.
    pub fn created_at(&self) -> (r: Option<u64>)
        ensures
            r matches Some(s) ==> decode_timestamp(self.created) matches Some(dt) && s
                == dt.unix_seconds(),
            r is None ==> decode_timestamp(self.created) is None,
    {
        proof {
            crate::timestamp::lemma_field_ranges(self.created);
        }
        match PsyqDateTime::from_psyq_timestamp(self.created) {
            Some(dt) => Some(dt.to_unix_seconds()),
            None => None,
        }
    }
}

/// A module of an archive: its metadata and its object file.
#[derive(Debug, Clone, PartialEq)]
pub struct Module {
    pub metadata: ModuleMetadata,
    pub obj: OBJ,
}

impl Module {
    /// The bytes that store this module.
    pub open spec fn encoding(self) -> Seq<u8> {
        self.metadata.encoding() + self.obj.encoding()
    }

    /// The shape that the reader produces.
    pub open spec fn well_formed(self) -> bool {
        self.metadata.well_formed() && self.obj.well_formed()
    }

    /// `data` holds the encoding of this module from `pos` on.
    pub open spec fn encodes_at(self, data: Seq<u8>, pos: int) -> bool {
        holds_at(data, pos, pos + self.encoding().len(), self.encoding())
    }

    /// Reads the module that begins at `pos`. It succeeds exactly when a
    /// well-formed module is stored there.
    pub fn read(data: &[u8], pos: usize) -> (r: Result<(Module, usize), DecodeError>)
        ensures
            r matches Ok((m, end)) ==> holds_at(data@, pos as int, end as int, m.encoding())
                && m.well_formed(),
            forall|m: Module|
                #[trigger] m.encodes_at(data@, pos as int) && m.well_formed() ==> (r matches Ok(
                    (x, end),
                ) && end == pos + m.encoding().len() && x.encoding() == m.encoding()),
            r matches Err(e) ==> !(e is EmptyArchive) && !(e is InvalidPath) && !(e is ModuleTooLarge),
    {
        let ghost d = data@;
        proof {
            assert forall|m: Module| #[trigger] m.encodes_at(d, pos as int) implies m.metadata.encodes_at(
                d,
                pos as int,
            ) && m.obj.encodes_at(d, pos + m.metadata.encoding().len()) by {
                let n0 = m.metadata.encoding().len() as int;
                let n1 = m.obj.encoding().len() as int;
                assert(d.subrange(pos as int, pos + n0) =~= d.subrange(
                    pos as int,
                    pos + n0 + n1,
                ).subrange(0, n0));
                assert(d.subrange(pos + n0, pos + n0 + n1) =~= d.subrange(
                    pos as int,
                    pos + n0 + n1,
                ).subrange(n0, n0 + n1));
                assert(m.encoding().subrange(0, n0) =~= m.metadata.encoding());
                assert(m.encoding().subrange(n0, n0 + n1) =~= m.obj.encoding());
            }
        }
        let (metadata, p) = ModuleMetadata::read(data, pos)?;
        let (obj, end) = OBJ::read(data, p)?;
        assert(data@.subrange(pos as int, end as int) =~= data@.subrange(pos as int, p as int)
            + data@.subrange(p as int, end as int));
        let x = Module { metadata, obj };
        proof {
            assert forall|m: Module| #[trigger] m.encodes_at(d, pos as int) && m.well_formed() implies
                x.encoding() == m.encoding() && end == pos + m.encoding().len() by {
                assert(m.metadata.encodes_at(d, pos as int));
                assert(m.obj.encodes_at(d, p as int));
                assert(x.encoding() =~= m.encoding());
            }
        }
        Ok((x, end))
    }

    /// Appends the encoding of this module.
    pub fn write(&self, out: &mut Vec<u8>)
        ensures
            final(out)@ == old(out)@ + self.encoding(),
    {
        self.metadata.write(out);
        self.obj.write(out);
        assert(out@ =~= old(out)@ + self.encoding());
    }

    /// The module built from the object file at `path`, whose bytes are
    /// `obj_bytes` and whose creation time is the packed word `created`.
    ///
    /// The name comes from the path, the export table from the object's
    /// observable exports followed by the empty entry; the offset is 20 plus
    /// one byte and the name for each entry, and the size is the offset plus
    /// the length of the file.
    pub fn new_from_path(path: &str, obj_bytes: &[u8], created: u32) -> (r: Result<
        Module,
        DecodeError,
    >)
        ensures
            r is Ok ==> path_has_prefix(path@),
            !path_has_prefix(path@) ==> r == Err::<Module, DecodeError>(DecodeError::InvalidPath),
            path_has_prefix(path@) && (exists|o: OBJ| #[trigger] o.encodes_at(obj_bytes@, 0)
                && o.well_formed()) && obj_bytes@.len() <= 0x7FFF_FFF0 ==> r is Ok,
            path_has_prefix(path@) && !(exists|o: OBJ| #[trigger] o.encodes_at(obj_bytes@, 0)
                && o.well_formed()) ==> (r matches Err(e) && !(e is InvalidPath) && !(
            e is ModuleTooLarge)),
            r == Err::<Module, DecodeError>(DecodeError::ModuleTooLarge) ==> path_has_prefix(path@)
                && exists|o: OBJ|
                #![trigger o.encodes_at(obj_bytes@, 0)]
                o.encodes_at(obj_bytes@, 0) && o.well_formed() && 21 + names_size(
                    export_names(o.sections@),
                ) + obj_bytes@.len() > u32::MAX,
            r matches Ok(m) ==> {
                &&& m.metadata.name@ == module_name_of(path@)
                &&& m.metadata.created == created
                &&& m.obj.well_formed()
                &&& m.metadata.well_formed()
                &&& holds_at(obj_bytes@, 0, m.obj.encoding().len() as int, m.obj.encoding())
                &&& table_names(m.metadata.exports@) == export_names(m.obj.sections@)
                &&& m.metadata.offset == 20 + exports_encoding(m.metadata.exports@).len()
                &&& m.metadata.size == m.metadata.offset + obj_bytes@.len()
                &&& m.metadata.offset == 21 + names_size(export_names(m.obj.sections@))
            },
    {
        if !crate::module_name::has_file_prefix(path) {
            return Err(DecodeError::InvalidPath);
        }
        let name = path_to_module_name(path);
        let (obj, _end) = match OBJ::read(obj_bytes, 0) {
            Ok(x) => x,
            Err(e) => {
                return Err(e);
            },
        };
        assert(obj.encodes_at(obj_bytes@, 0));
        let ghost names = export_names(obj.sections@);
        let ghost fits = obj_bytes@.len() <= 0x7FFF_FFF0;
        proof {
            lemma_names_size_bound(obj.sections@);
            assert(obj.encoding().len() >= 4 + sections_encoding(obj.sections@).len());
        }
        let symbols = obj.export_symbols();
        let mut exports: Vec<Export> = Vec::new();
        let mut offset: u32 = 20;
        let mut i: usize = 0;
        while i < symbols.len()
            invariant
                path_has_prefix(path@),
                obj.well_formed(),
                i <= symbols@.len(),
                symbols@.len() == export_names(obj.sections@).len(),
                forall|k: int|
                    0 <= k < symbols@.len() ==> #[trigger] symbols@[k]@ == export_names(
                        obj.sections@,
                    )[k],
                exports@.len() == i,
                table_names(exports@) == export_names(obj.sections@).subrange(0, i as int),
                forall|k: int|
                    0 <= k < exports@.len() ==> (#[trigger] exports@[k]).name@.len()
                        == exports@[k].name_size && exports@[k].name_size != 0,
                offset == 20 + exports_encoding(exports@).len(),
                names == export_names(obj.sections@),
                exports_encoding(exports@).len() == names_size(names.subrange(0, i as int)),
                names_size(names) <= obj_bytes@.len(),
                obj.encodes_at(obj_bytes@, 0),
                fits == (obj_bytes@.len() <= 0x7FFF_FFF0),
            decreases symbols.len() - i,
        {
            proof {
                lemma_export_names_nonempty(obj.sections@, i as int);
                lemma_names_size_prefix(names, i + 1);
                assert(names.subrange(0, i + 1).drop_last() =~= names.subrange(0, i as int));
            }
            let n = symbols[i].len();
            if n as u32 + 1 > 0xFFFF_FFFF - offset {
                proof {
                    lemma_names_size_prefix(names, i + 1);
                    assert(obj.encodes_at(obj_bytes@, 0) && obj.well_formed() && 21 + names_size(
                        export_names(obj.sections@),
                    ) + obj_bytes@.len() > u32::MAX);
                }
                return Err(DecodeError::ModuleTooLarge);
            }
            let e = Export { name_size: n as u8, name: symbols[i].clone() };
            let ghost before = exports@;
            exports.push(e);
            assert(exports@.drop_last() =~= before);
            assert(export_names(obj.sections@).subrange(0, i + 1) =~= export_names(
                obj.sections@,
            ).subrange(0, i as int).push(symbols@[i as int]@));
            offset = offset + 1 + n as u32;
            i = i + 1;
        }
        assert(export_names(obj.sections@).subrange(0, i as int) =~= export_names(obj.sections@));
        if offset > 0xFFFF_FFFF - 1 {
            assert(obj.encodes_at(obj_bytes@, 0) && obj.well_formed() && 21 + names_size(
                export_names(obj.sections@),
            ) + obj_bytes@.len() > u32::MAX);
            return Err(DecodeError::ModuleTooLarge);
        }
        let ghost before = exports@;
        exports.push(Export::empty());
        assert(exports@.drop_last() =~= before);
        offset = offset + 1;
        if obj_bytes.len() > (0xFFFF_FFFFu32 - offset) as usize {
            assert(obj.encodes_at(obj_bytes@, 0) && obj.well_formed() && 21 + names_size(
                export_names(obj.sections@),
            ) + obj_bytes@.len() > u32::MAX);
            return Err(DecodeError::ModuleTooLarge);
        }
        let size = offset + obj_bytes.len() as u32;
        let metadata = ModuleMetadata { name, created, offset, size, exports };
        Ok(Module { metadata, obj })
    }

    /// The module name without its trailing whitespace.
    pub fn name(&self) -> (r: String)
        ensures
            r@ == lossy_text(self.metadata.name@.subrange(0, trimmed_len(self.metadata.name@) as int)),
            valid_utf8(self.metadata.name@.subrange(0, trimmed_len(self.metadata.name@) as int))
                ==> r@ == decode_utf8(
                self.metadata.name@.subrange(0, trimmed_len(self.metadata.name@) as int),
            ),
    {
        self.metadata.name()
    }

    /// The names of the export table's non-empty entries, as text.
    pub fn exports(&self) -> (r: Vec<String>)
        ensures
            r@.len() == table_names(self.metadata.exports@).len(),
            forall|i: int|
                0 <= i < r@.len() ==> #[trigger] r@[i]@ == lossy_text(
                    export_display_bytes(table_names(self.metadata.exports@)[i]),
                ),
            forall|i: int|
                0 <= i < r@.len() && valid_utf8(export_display_bytes(table_names(self.metadata.exports@)[i]))
                    ==> #[trigger] r@[i]@ == decode_utf8(export_display_bytes(table_names(self.metadata.exports@)[i])),
    {
        self.metadata.exports()
    }

    /// The creation time as `DD-MM-YY HH:MM:SS`.
    pub fn created(&self) -> (r: String)
        requires
            decode_timestamp(self.metadata.created) is Some,
        ensures
            r@ == lossy_text(decode_timestamp(self.metadata.created)->0.listing_bytes()),
            valid_utf8(decode_timestamp(self.metadata.created)->0.listing_bytes()) ==> r@ == decode_utf8(
                decode_timestamp(self.metadata.created)->0.listing_bytes(),
            ),
    {
        self.metadata.created()
    }

    /// The creation time in seconds since the Unix epoch, read as UTC.
    pub fn created_at(&self) -> (r: Option<u64>)
        ensures
            r matches Some(s) ==> decode_timestamp(self.metadata.created) matches Some(dt) && s
                == dt.unix_seconds(),
            r is None ==> decode_timestamp(self.metadata.created) is None,
    {
        self.metadata.created_at()
    }

    /// The creation time, if the stored word is a valid date and time.
    pub fn created_datetime(&self) -> (r: Option<PsyqDateTime>)
        ensures
            r == decode_timestamp(self.metadata.created),
    {
        self.metadata.created_datetime()
    }

    /// The object file of this module.
    pub fn object(&self) -> (r: &OBJ)
        ensures
            *r == self.obj,
    {
        &self.obj
    }
}

/// A module whose object file is kept as raw bytes, for tools that only
/// look at the metadata.
#[derive(Debug, Clone, PartialEq)]
pub struct OpaqueModule {
    pub metadata: ModuleMetadata,
    /// The `metadata.size - 16` bytes that follow the metadata.
    pub obj: Vec<u8>,
}

impl OpaqueModule {
    /// The bytes that store this module.
    pub open spec fn encoding(self) -> Seq<u8> {
        self.metadata.encoding() + self.obj@
    }

    /// Reads the metadata at `pos` and then `size - 16` raw bytes. It fails
    /// as truncated when the size is below 16 or the bytes run out.
    pub fn read(data: &[u8], pos: usize) -> (r: Result<(OpaqueModule, usize), DecodeError>)
        ensures
            r matches Ok((m, end)) ==> holds_at(data@, pos as int, end as int, m.encoding())
                && m.metadata.well_formed() && m.metadata.size >= 16 && m.obj@.len()
                == m.metadata.size - 16,
            r matches Err(e) ==> e is Truncated,
    {
        let (metadata, p) = ModuleMetadata::read(data, pos)?;
        if metadata.size < 16 {
            return Err(DecodeError::Truncated);
        }
        let n = (metadata.size - 16) as usize;
        let (obj, end) = read_raw(data, p, n)?;
        assert(data@.subrange(pos as int, end as int) =~= data@.subrange(pos as int, p as int)
            + data@.subrange(p as int, end as int));
        Ok((OpaqueModule { metadata, obj }, end))
    }

    /// Appends the encoding of this module.
    pub fn write(&self, out: &mut Vec<u8>)
        ensures
            final(out)@ == old(out)@ + self.encoding(),
    {
        self.metadata.write(out);
        write_raw(out, &self.obj);
        assert(out@ =~= old(out)@ + self.encoding());
    }
}

/// The bytes that the export table spends on `names`: a length byte and
/// the name for each.
pub open spec fn names_size(names: Seq<Seq<u8>>) -> int
    decreases names.len(),
{
    if names.len() == 0 {
        0
    } else {
        names_size(names.drop_last()) + 1 + names.last().len()
    }
}

proof fn lemma_names_size_prefix(names: Seq<Seq<u8>>, i: int)
    requires
        0 <= i <= names.len(),
    ensures
        names_size(names.subrange(0, i)) <= names_size(names),
    decreases names.len() - i,
{
    if i < names.len() {
        lemma_names_size_prefix(names, i + 1);
        assert(names.subrange(0, i + 1).drop_last() =~= names.subrange(0, i));
    } else {
        assert(names.subrange(0, i) =~= names);
    }
}

proof fn lemma_names_size_bound(s: Seq<crate::section::Section>)
    requires
        forall|k: int| 0 <= k < s.len() ==> (#[trigger] s[k]).well_formed(),
    ensures
        names_size(export_names(s)) <= crate::object::sections_encoding(s).len(),
    decreases s.len(),
{
    if s.len() > 0 {
        assert forall|k: int| 0 <= k < s.drop_last().len() implies (
        #[trigger] s.drop_last()[k]).well_formed() by {
            assert(s.drop_last()[k] == s[k]);
        }
        lemma_names_size_bound(s.drop_last());
        assert(s.last() == s[s.len() - 1]);
        let rest = export_names(s.drop_last());
        match s.last() {
            crate::section::Section::XDEF(x) => {
                if x.symbol_name_size > 0 {
                    assert(rest.push(x.symbol_name@).drop_last() =~= rest);
                }
            },
            crate::section::Section::XBSS(x) => {
                if x.name_size > 0 {
                    assert(rest.push(x.name@).drop_last() =~= rest);
                }
            },
            _ => {},
        }
    }
}

proof fn lemma_export_names_nonempty(s: Seq<crate::section::Section>, i: int)
    requires
        0 <= i < export_names(s).len(),
        forall|k: int| 0 <= k < s.len() ==> (#[trigger] s[k]).well_formed(),
    ensures
        export_names(s)[i].len() > 0,
        export_names(s)[i].len() <= 255,
    decreases s.len(),
{
    reveal_with_fuel(export_names, 2);
    if s.len() > 0 {
        let rest = export_names(s.drop_last());
        assert(s.last() == s[s.len() - 1]);
        if i < rest.len() {
            assert forall|k: int| 0 <= k < s.drop_last().len() implies (
            #[trigger] s.drop_last()[k]).well_formed() by {
                assert(s.drop_last()[k] == s[k]);
            }
            lemma_export_names_nonempty(s.drop_last(), i);
        }
    }
}

/// The concatenated encodings of `s`, in order.
pub open spec fn modules_encoding(s: Seq<Module>) -> Seq<u8>
    decreases s.len(),
{
    if s.len() == 0 {
        Seq::empty()
    } else {
        modules_encoding(s.drop_last()) + s.last().encoding()
    }
}

/// The encoding of a concatenation is the concatenation of the encodings.
pub proof fn lemma_modules_encoding_append(a: Seq<Module>, b: Seq<Module>)
    ensures
        modules_encoding(a + b) == modules_encoding(a) + modules_encoding(b),
    decreases b.len(),
{
    if b.len() == 0 {
        assert(a + b =~= a);
        assert(modules_encoding(a) + modules_encoding(b) =~= modules_encoding(a));
    } else {
        lemma_modules_encoding_append(a, b.drop_last());
        assert((a + b).drop_last() =~= a + b.drop_last());
        assert(modules_encoding(a + b) =~= modules_encoding(a) + modules_encoding(b));
    }
}

/// Splits the encoding of `s` at its `k`-th module.
proof fn lemma_modules_split(s: Seq<Module>, k: int)
    requires
        0 <= k < s.len(),
    ensures
        modules_encoding(s) == modules_encoding(s.subrange(0, k)) + s[k].encoding()
            + modules_encoding(s.subrange(k + 1, s.len() as int)),
{
    lemma_modules_encoding_append(s.subrange(0, k), s.subrange(k, s.len() as int));
    assert(s.subrange(0, k) + s.subrange(k, s.len() as int) =~= s);
    let rest = s.subrange(k, s.len() as int);
    lemma_modules_encoding_append(seq![rest[0]], rest.drop_first());
    assert(seq![rest[0]] + rest.drop_first() =~= rest);
    assert(rest.drop_first() =~= s.subrange(k + 1, s.len() as int));
    assert(modules_encoding(seq![rest[0]]) =~= rest[0].encoding()) by {
        reveal_with_fuel(modules_encoding, 2);
        assert(seq![rest[0]].drop_last() =~= Seq::<Module>::empty());
        assert(seq![rest[0]].last() == rest[0]);
        assert(Seq::<u8>::empty() + rest[0].encoding() =~= rest[0].encoding());
    }
}

/// An archive of object files.
#[derive(Debug, Clone, PartialEq)]
pub struct LIB {
    pub version: u8,
    pub objs: Vec<Module>,
}

impl LIB {
    /// The bytes that store this archive.
    pub open spec fn encoding(self) -> Seq<u8> {
        seq![0x4Cu8, 0x49u8, 0x42u8, self.version] + modules_encoding(self.objs@)
    }

    /// The shape that the reader produces: version 1 and at least one
    /// well-formed module.
    pub open spec fn well_formed(self) -> bool {
        &&& self.version == 1
        &&& self.objs@.len() > 0
        &&& forall|i: int| 0 <= i < self.objs@.len() ==> (#[trigger] self.objs@[i]).well_formed()
    }

    /// `bytes` is exactly the encoding of this archive, and the archive has
    /// the shape that the reader produces.
    pub open spec fn decodes_from(self, bytes: Seq<u8>) -> bool {
        self.encoding() == bytes && self.well_formed()
    }

    /// An archive of version 1 holding `objs`.
    pub fn new(objs: Vec<Module>) -> (r: LIB)
        ensures
            r.version == 1,
            r.objs@ == objs@,
    {
        LIB { version: 1, objs }
    }

    /// The modules of this archive, in order.
    pub fn modules(&self) -> (r: &Vec<Module>)
        ensures
            r@ == self.objs@,
    {
        &self.objs
    }

    /// Reads an archive that fills `data` exactly. It succeeds exactly when
    /// `data` is the encoding of a well-formed archive.
    #[verifier::rlimit(100)]
    pub fn read(data: &[u8]) -> (r: Result<LIB, DecodeError>)
        ensures
            r matches Ok(l) ==> l.decodes_from(data@),
            forall|l: LIB| #[trigger] l.decodes_from(data@) ==> (r matches Ok(x) && x.encoding() == l.encoding()),
            !(4 <= data@.len() && data@.subrange(0, 4) == lib_header()) ==> r == Err::<
                LIB,
                DecodeError,
            >(DecodeError::BadMagic),
            r matches Err(DecodeError::EmptyArchive) ==> data@ == lib_header(),
            data@ == lib_header() ==> r == Err::<LIB, DecodeError>(DecodeError::EmptyArchive),
            r matches Err(e) ==> !(e is InvalidPath),
    {
        let ghost d = data@;
        if data.len() < 4 || data[0] != 0x4C || data[1] != 0x49 || data[2] != 0x42 || data[3] != 1 {
            proof {
                assert forall|l: LIB| #[trigger] l.decodes_from(d) implies false by {
                    assert(l.encoding()[0] == d[0] && l.encoding()[1] == d[1] && l.encoding()[2] == d[2]
                        && l.encoding()[3] == d[3]);
                }
            }
            return Err(DecodeError::BadMagic);
        }
        assert(data@.subrange(0, 4) =~= lib_header());
        let mut objs: Vec<Module> = Vec::new();
        let mut p: usize = 4;
        assert(data@.subrange(0, 4) =~= seq![0x4Cu8, 0x49u8, 0x42u8, 1u8] + modules_encoding(
            objs@,
        ));
        proof {
            assert forall|l: LIB| #[trigger] l.decodes_from(d) implies modules_encoding(
                l.objs@.subrange(0, 0),
            ) == modules_encoding(objs@) by {
                assert(l.objs@.subrange(0, 0) =~= objs@);
            }
        }
        while p < data.len()
            invariant
                d == data@,
                4 <= p <= data@.len(),
                data@.subrange(0, 4) == lib_header(),
                data@.subrange(0, p as int) == seq![0x4Cu8, 0x49u8, 0x42u8, 1u8] + modules_encoding(
                    objs@,
                ),
                forall|i: int| 0 <= i < objs@.len() ==> (#[trigger] objs@[i]).well_formed(),
                objs@.len() == 0 <==> p == 4,
                forall|l: LIB|
                    #[trigger] l.decodes_from(d) ==> objs@.len() <= l.objs@.len() && modules_encoding(
                        l.objs@.subrange(0, objs@.len() as int),
                    ) == modules_encoding(objs@),
            decreases data@.len() - p,
        {
            let ghost k = objs@.len() as int;
            proof {
                assert forall|l: LIB| #[trigger] l.decodes_from(d) implies k < l.objs@.len()
                    && l.objs@[k].encodes_at(d, p as int) by {
                    let os = l.objs@;
                    assert(d.subrange(0, p as int).len() == p);
                    if k == os.len() {
                        assert(os.subrange(0, k) =~= os);
                        assert(d.len() == p);
                    }
                    lemma_modules_split(os, k);
                    let n0 = modules_encoding(objs@).len() as int;
                    let n1 = os[k].encoding().len() as int;
                    let e = l.encoding();
                    assert(e.subrange(4 + n0, 4 + n0 + n1) =~= os[k].encoding());
                    assert(d.subrange(p as int, p + n1) =~= e.subrange(4 + n0, 4 + n0 + n1));
                }
            }
            let (m, end) = match Module::read(data, p) {
                Ok(x) => x,
                Err(err) => {
                    proof {
                        assert forall|l: LIB| #[trigger] l.decodes_from(d) implies false by {
                            assert(l.objs@[k].well_formed());
                            assert(l.objs@[k].encodes_at(d, p as int));
                        }
                    }
                    return Err(err);
                },
            };
            assert(m.encoding().len() > 0) by {
                assert(m.metadata.encoding().len() >= 8);
            }
            let ghost before = objs@;
            objs.push(m);
            assert(objs@.drop_last() =~= before);
            assert(data@.subrange(0, end as int) =~= data@.subrange(0, p as int) + data@.subrange(
                p as int,
                end as int,
            ));
            proof {
                assert forall|l: LIB| #[trigger] l.decodes_from(d) implies objs@.len() <= l.objs@.len()
                    && modules_encoding(l.objs@.subrange(0, objs@.len() as int)) == modules_encoding(
                    objs@,
                ) by {
                    let os = l.objs@;
                    assert(os[k].well_formed());
                    assert(os[k].encodes_at(d, p as int));
                    assert(os.subrange(0, k + 1).drop_last() =~= os.subrange(0, k));
                    assert(os.subrange(0, k + 1).last() == os[k]);
                }
            }
            p = end;
        }
        if objs.len() == 0 {
            assert(data@ =~= data@.subrange(0, 4));
            proof {
                assert forall|l: LIB| #[trigger] l.decodes_from(d) implies false by {
                    lemma_modules_split(l.objs@, 0);
                    assert(l.objs@[0].metadata.encoding().len() >= 8);
                }
            }
            return Err(DecodeError::EmptyArchive);
        }
        assert(data@.subrange(0, p as int) =~= data@);
        let x = LIB { version: 1, objs };
        proof {
            assert forall|l: LIB| #[trigger] l.decodes_from(d) implies x.encoding() == l.encoding() by {
                let os = l.objs@;
                let k = x.objs@.len() as int;
                if k < os.len() {
                    lemma_modules_split(os, k);
                    assert(os[k].metadata.encoding().len() >= 8);
                    assert(l.encoding().len() > d.len());
                }
                assert(os.subrange(0, k) =~= os);
                assert(x.encoding() =~= l.encoding());
            }
        }
        Ok(x)
    }

    /// Appends the encoding of this archive.
    pub fn write(&self, out: &mut Vec<u8>)
        ensures
            final(out)@ == old(out)@ + self.encoding(),
    {
        out.push(0x4C);
        out.push(0x49);
        out.push(0x42);
        out.push(self.version);
        let mut i: usize = 0;
        while i < self.objs.len()
            invariant
                i <= self.objs@.len(),
                out@ == old(out)@ + seq![0x4Cu8, 0x49u8, 0x42u8, self.version] + modules_encoding(
                    self.objs@.subrange(0, i as int),
                ),
            decreases self.objs.len() - i,
        {
            self.objs[i].write(out);
            assert(self.objs@.subrange(0, i + 1).drop_last() =~= self.objs@.subrange(0, i as int));
            i = i + 1;
            assert(out@ =~= old(out)@ + seq![0x4Cu8, 0x49u8, 0x42u8, self.version]
                + modules_encoding(self.objs@.subrange(0, i as int)));
        }
        assert(self.objs@.subrange(0, i as int) =~= self.objs@);
        assert(out@ =~= old(out)@ + self.encoding());
    }

    /// The encoding of this archive as a new byte vector.
    pub fn to_bytes(&self) -> (r: Vec<u8>)
        ensures
            r@ == self.encoding(),
    {
        let mut out: Vec<u8> = Vec::new();
        self.write(&mut out);
        assert(out@ =~= self.encoding());
        out
    }
}

/// Byte-exact round trip: an archive that the reader accepts from `bytes`
/// is written back as exactly `bytes`.
pub proof fn lemma_lib_round_trip(bytes: Seq<u8>, lib: LIB)
    requires
        lib.decodes_from(bytes),
    ensures
        lib.encoding() == bytes,
{
}

/// Byte-exact round trip for a module read at some position: writing it
/// gives back the bytes it was read from.
pub proof fn lemma_module_round_trip(data: Seq<u8>, pos: int, end: int, m: Module)
    requires
        holds_at(data, pos, end, m.encoding()),
    ensures
        m.encoding() == data.subrange(pos, end),
{
}

} // verus!
