use psyx::codec::DecodeError;
use psyx::io;
use psyx::library::{Export, Module, LIB};
use psyx::link::{parse_expression_text, parse_line, BinaryOp, Command, Expression, ScriptErrorKind};
use psyx::module_name::path_to_module_name;
use psyx::object::OBJ;
use psyx::section::Section;
use psyx::timestamp::PsyqDateTime;

#[test]
fn test_path_to_module_name() {
    assert_eq!(*b"OUTPUT  ", path_to_module_name("some/output.obj"));
    assert_eq!(*b"LONGNAME", path_to_module_name("some/longname.obj"));
    // name is truncated to 8 characters
    assert_eq!(*b"LONGERNA", path_to_module_name("some/longername.obj"));
    // strings with code points that fit into 8-bytes are "fine"
    let name: [u8; 8] = "\u{1F47E}    ".as_bytes().try_into().unwrap();
    assert_eq!(name, path_to_module_name("some/\u{1F47E}.obj"));
    // strings with code points that are split are not
    let name: [u8; 8] = "\u{1F47E}\u{2615} ".as_bytes().try_into().unwrap();
    assert_eq!(name, path_to_module_name("some/\u{1F47E}\u{2615}\u{2615}.obj"));
    // all 8-bytes consumed by multi-byte
    let name: [u8; 8] = "\u{1F47E}\u{1F47E}".as_bytes().try_into().unwrap();
    assert_eq!(name, path_to_module_name("some/\u{1F47E}\u{1F47E}.obj"));
    // diacritics
    let name: [u8; 8] = "A\u{362}B    ".as_bytes().try_into().unwrap();
    assert_eq!(name, path_to_module_name("some/a\u{362}b.obj"));
}

#[test]
fn test_datetime() {
    let t: u32 = 0x813320af;
    let dt = PsyqDateTime::from_psyq_timestamp(t).expect("datetime");
    assert_eq!(dt.year, 1996);
    assert_eq!(dt.month, 5);
    assert_eq!(dt.day, 15);
    assert_eq!(dt.hour, 16);
    assert_eq!(dt.minute, 9);
    assert_eq!(dt.second, 38);
    assert_eq!(t, dt.to_psyq_timestamp());
    assert_eq!(832176578u64, dt.to_unix_seconds());

    let t: u32 = 0x8d061f4c;
    let dt = PsyqDateTime::from_psyq_timestamp(t).expect("datetime");
    assert_eq!(dt.year, 1995);
    assert_eq!(dt.month, 10);
    assert_eq!(dt.day, 12);
    assert_eq!(dt.hour, 17);
    assert_eq!(dt.minute, 40);
    assert_eq!(dt.second, 12);
    assert_eq!(t, dt.to_psyq_timestamp());
    assert_eq!(813519612u64, dt.to_unix_seconds());
}

#[test]
fn timestamp_rejects_impossible_dates() {
    // month 0
    assert!(PsyqDateTime::from_psyq_timestamp(0x0000_0001).is_none());
    // 1981-02-29 does not exist; 1984-02-29 does
    let feb29 = |year: u32| (((year - 1980) << 9) | (2 << 5) | 29) as u32;
    assert!(PsyqDateTime::from_psyq_timestamp(feb29(1981)).is_none());
    assert!(PsyqDateTime::from_psyq_timestamp(feb29(1984)).is_some());
    // hour 24
    assert!(PsyqDateTime::from_psyq_timestamp((24 << 27) | (1 << 5) | 1).is_none());
    // seconds field 30 means 60 seconds
    assert!(PsyqDateTime::from_psyq_timestamp((30 << 16) | (1 << 5) | 1).is_none());
}

#[test]
fn timestamp_fields_round_trip_with_even_seconds() {
    let dt = PsyqDateTime { year: 2001, month: 12, day: 31, hour: 23, minute: 59, second: 59 };
    let back = PsyqDateTime::from_psyq_timestamp(dt.to_psyq_timestamp()).unwrap();
    assert_eq!(back, PsyqDateTime { second: 58, ..dt });
    assert_eq!(back.to_listing(), "31-12-01 23:59:58");
}

#[test]
fn module_name_cluster_cut() {
    // three four-byte code points: two fit, the third is dropped
    let expected: [u8; 8] = "\u{1F47E}\u{1F47E}".as_bytes().try_into().unwrap();
    assert_eq!(expected, path_to_module_name("dir/\u{1F47E}\u{1F47E}\u{1F47E}.obj"));
    // the prefix stops at the first dot, and only ASCII letters change case
    assert_eq!(*b".A      ", path_to_module_name("x/.a.b"));
    assert_eq!(*b"MIX_9?  ", path_to_module_name("mix_9?.tar.gz"));
}

#[test]
fn module_name_is_stable() {
    let first = path_to_module_name("some/longername.obj");
    let again = path_to_module_name(std::str::from_utf8(&first).unwrap().trim_end());
    assert_eq!(first, again);
    assert!(first.iter().all(|c| !c.is_ascii_lowercase()));
}

#[test]
fn new_module_lists_the_object_exports() {
    // LNK 2, XDEF "abc", XREF "ext", XBSS "buf", XDEF with an empty name, NOP
    let obj_bytes: Vec<u8> = vec![
        0x4C, 0x4E, 0x4B, 0x02, //
        0x0C, 0x01, 0x00, 0x01, 0x00, 0x00, 0x00, 0x00, 0x00, 0x03, b'a', b'b', b'c', //
        0x0E, 0x02, 0x00, 0x03, b'e', b'x', b't', //
        0x30, 0x03, 0x00, 0x01, 0x00, 0x10, 0x00, 0x00, 0x00, 0x03, b'b', b'u', b'f', //
        0x0C, 0x04, 0x00, 0x01, 0x00, 0x00, 0x00, 0x00, 0x00, 0x00, //
        0x00,
    ];
    let m = Module::new_from_path("lib/thing.obj", &obj_bytes, 0x813320af).unwrap();
    assert_eq!(m.name(), "THING");
    assert_eq!(m.exports(), vec!["abc".to_string(), "buf".to_string()]);
    assert_eq!(m.object().exports(), m.exports());
    assert_eq!(m.metadata.exports.len(), 3);
    assert_eq!(m.metadata.offset, 20 + 4 + 4 + 1);
    assert_eq!(m.metadata.size, m.metadata.offset + obj_bytes.len() as u32);
    assert_eq!(m.created(), "15-05-96 16:09:38");
    assert_eq!(m.created_at(), Some(832176578));

    // the archive holding it reads back to the same value
    let lib = LIB::new(vec![m.clone()]);
    let bytes = io::write_lib(&lib);
    assert_eq!(io::read_lib(&bytes).unwrap(), lib);
    assert_eq!(io::write_lib(&io::read_lib(&bytes).unwrap()), bytes);
}

#[test]
fn new_module_needs_a_file_name() {
    let obj_bytes: Vec<u8> = vec![0x4C, 0x4E, 0x4B, 0x02, 0x00];
    assert_eq!(Module::new_from_path("..", &obj_bytes, 0), Err(DecodeError::InvalidPath));
    assert_eq!(Module::new_from_path("/", &obj_bytes, 0), Err(DecodeError::InvalidPath));
}

#[test]
fn decode_errors() {
    assert_eq!(io::read(b"XYZ\x01").unwrap_err(), DecodeError::BadMagic);
    assert_eq!(io::read(b"LI").unwrap_err(), DecodeError::BadMagic);
    assert_eq!(io::read_lib(b"LIB\x01").unwrap_err(), DecodeError::EmptyArchive);
    assert_eq!(io::read_lib(b"LIB\x02").unwrap_err(), DecodeError::BadMagic);
    assert_eq!(io::read_obj(b"LNK\x02\x2E").unwrap_err(), DecodeError::Truncated);
    assert_eq!(io::read_obj(b"LNK\x02\x16\x00").unwrap_err(), DecodeError::UnknownSectionTag(0x16));
    assert_eq!(
        io::read_obj(b"LNK\x02\x0A\x00\x00\x00\x03").unwrap_err(),
        DecodeError::UnknownExpressionTag(3)
    );
    assert_eq!(
        Section::read(b"\x54\x00\x00\x00\x00\x00\x00\x00\x00\x00\x00\x00\x00\x00\x00\x02\x00", 0)
            .unwrap_err(),
        DecodeError::UnknownDimension(2)
    );
    // an expression nested deeper than the reader accepts
    let mut deep = vec![0x0A, 0x00, 0x00, 0x00];
    for _ in 0..100 {
        deep.push(0x2C);
    }
    deep.extend_from_slice(&[0x00, 0, 0, 0, 0]);
    assert_eq!(Section::read(&deep, 0).unwrap_err(), DecodeError::NestingTooDeep);
}

#[test]
fn obj_stops_at_nop_and_round_trips() {
    let bytes: Vec<u8> = vec![
        0x4C, 0x4E, 0x4B, 0x02, 0x2E, 0x08, 0x08, 0x10, 0x00, 0x00, 0x00, 0x00, 0xFF, 0xFF,
    ];
    let obj = io::read_obj(&bytes).unwrap();
    assert_eq!(obj.sections(), &vec![Section::CPU(8), Section::BSS(16), Section::NOP]);
    assert_eq!(io::write_obj(&obj), bytes[..12].to_vec());
    assert!(obj.exports().is_empty());
    let OBJ { version, .. } = obj;
    assert_eq!(version, 2);
}

#[test]
fn starred_export_name() {
    let e = Export { name_size: 3, name: vec![0, b'a', b'b'] };
    assert_eq!(e.name(), "*ab");
    assert_eq!(Export::new("hello".to_string()).name_size, 5);
    assert_eq!(Export::new("x".repeat(300)).name.len(), 255);
    assert!(Export::empty().name.is_empty());
}

#[test]
fn lossy_names_replace_invalid_bytes() {
    let e = Export { name_size: 2, name: vec![b'a', 0xFF] };
    assert_eq!(e.name(), "a\u{FFFD}");
}

#[test]
fn org_line_scenario() {
    let (command, comment, end) = parse_line("org $80010000").unwrap();
    assert_eq!(command, Some(Command::Origin { address: 0x80010000 }));
    assert!(comment.is_none());
    assert_eq!(end, 13);
}

#[test]
fn precedence_pairs() {
    let ops = [
        ("||", BinaryOp::LogOr),
        ("&&", BinaryOp::LogAnd),
        ("|", BinaryOp::Or),
        ("^", BinaryOp::Xor),
        ("&", BinaryOp::And),
        ("==", BinaryOp::Eq),
        ("<", BinaryOp::Lt),
        ("<<", BinaryOp::Shl),
        ("+", BinaryOp::Add),
        ("*", BinaryOp::Mul),
    ];
    let x = || Box::new(Expression::Symbol("x".into()));
    let y = || Box::new(Expression::Symbol("y".into()));
    let z = || Box::new(Expression::Symbol("z".into()));
    for (i, (a, opa)) in ops.iter().enumerate() {
        for (b, opb) in ops.iter().skip(i + 1) {
            let e = parse_expression_text(&format!("x {a} y {b} z")).unwrap().0;
            let inner = Expression::Binary { left: y(), op: *opb, right: z() };
            assert_eq!(e, Expression::Binary { left: x(), op: *opa, right: Box::new(inner) });
        }
        let e = parse_expression_text(&format!("x {a} y {a} z")).unwrap().0;
        let inner = Expression::Binary { left: x(), op: *opa, right: y() };
        assert_eq!(e, Expression::Binary { left: Box::new(inner), op: *opa, right: z() });
    }
}

#[test]
fn reprint_and_reparse_is_stable() {
    for text in ["base + (offset & $FFFF) | $8000", "-x * ~y", "sectstart(text) + $100", "a<<2>=b"] {
        let e = parse_expression_text(text).unwrap().0;
        let printed = e.to_text();
        let again = parse_expression_text(&printed).unwrap().0;
        assert_eq!(again.strip_parens(), e.strip_parens());
    }
}

#[test]
fn script_errors() {
    assert_eq!(parse_line("org $").unwrap_err().kind, ScriptErrorKind::MissingDigits);
    assert_eq!(
        parse_line("org 99999999999999999999").unwrap_err().kind,
        ScriptErrorKind::NumericOverflow
    );
    assert_eq!(parse_line("x = -").unwrap_err().kind, ScriptErrorKind::MissingOperand);
    assert_eq!(parse_expression_text("+").unwrap_err().kind, ScriptErrorKind::ExpectedExpression);
    assert_eq!(parse_line("org xyz").unwrap().0, None);
}

#[test]
fn opaque_module_keeps_object_bytes() {
    // name, created, offset 21, size 21 (5 object bytes follow), one empty export
    let mut bytes: Vec<u8> = b"ABC     ".to_vec();
    bytes.extend_from_slice(&[0xAF, 0x20, 0x33, 0x81, 21, 0, 0, 0, 21, 0, 0, 0, 0]);
    bytes.extend_from_slice(b"LNK\x02\x00");
    let (m, end) = psyx::library::OpaqueModule::read(&bytes, 0).unwrap();
    assert_eq!(end, bytes.len());
    assert_eq!(m.obj, b"LNK\x02\x00".to_vec());
    assert_eq!(m.metadata.name(), "ABC");
    let mut out = Vec::new();
    m.write(&mut out);
    assert_eq!(out, bytes);
}

#[test]
fn listing_of_sections() {
    let (s, _) = Section::read(b"\x0C\x01\x00\x02\x00\x10\x00\x00\x00\x03abc", 0).unwrap();
    assert_eq!(s.to_listing(), "12 : XDEF symbol number 1 'abc' at offset 10 in section 2");
    assert_eq!(Section::BSS(16).to_listing(), "8 : Uninitialized data, 16 bytes");
    assert_eq!(Section::BSS(16).listing_with_spelling(true), "8 : Uninitialised data, 16 bytes");
    assert_eq!(Section::NOP.to_listing(), "0 : End of file");
}

#[test]
fn only_function_names_may_be_applied() {
    assert_eq!(parse_expression_text("foo(1)").unwrap_err().kind, ScriptErrorKind::NotCallable);
    let (e, end) = parse_expression_text("bank(3) rest").unwrap();
    assert_eq!(end, 7);
    assert_eq!(e.to_text(), "bank($3)");
}

#[test]
fn unary_operators_chain_to_the_right() {
    let (e, _) = parse_expression_text("--x").unwrap();
    let x = Expression::Symbol("x".into());
    let inner = Expression::Unary { op: psyx::link::UnaryOp::Neg, operand: Box::new(x) };
    assert_eq!(e, Expression::Unary { op: psyx::link::UnaryOp::Neg, operand: Box::new(inner) });
}

#[test]
fn clusters_are_never_split() {
    let clusters = vec![vec![1u8, 2, 3, 4], vec![5, 6, 7], vec![8, 9]];
    assert_eq!(psyx::module_name::fit_clusters(&clusters, 8), vec![1, 2, 3, 4, 5, 6, 7]);
    assert_eq!(psyx::module_name::fit_clusters(&clusters, 3), Vec::<u8>::new());
}
