//! The parts of the library on small inputs: the capability database, string
//! tables and bounded reads, search paths, JSON strings and tables.

use elfcaps::analysis::looks_like_library_name;
use elfcaps::capdb::{CapDb, DbError};
use elfcaps::elf::{cstr, Class, ElfError, ElfFile, Endian, Reader};
use elfcaps::loader::{expand_origin, expand_search_path};
use elfcaps::output::{json_string, table};

#[test]
fn library_name_heuristic() {
    assert!(looks_like_library_name("libX11.so.6"));
    assert!(looks_like_library_name("libXtst.so"));
    assert!(looks_like_library_name("/usr/lib/libpipewire-0.3.so.0"));
    assert!(!looks_like_library_name("library"));
    assert!(!looks_like_library_name("failed to load libX11.so.6"));
    assert!(!looks_like_library_name("libfoo.sort"));
}

#[test]
fn builtin_database_is_valid_and_documented() {
    let db = CapDb::builtin();
    assert!(db.capabilities().len() >= 8);
    for cap in db.capabilities() {
        assert!(
            cap.rationale.split_whitespace().count() >= 20,
            "{} needs a real rationale",
            cap.id
        );
    }
    assert_eq!(
        db.for_symbol("xcb_convert_selection").unwrap().id,
        "selection-read"
    );
    assert_eq!(
        db.for_symbol("XRecordEnableContext").unwrap().id,
        "input-record"
    );
    assert_eq!(
        db.for_string("org.freedesktop.portal.ScreenCast")
            .unwrap()
            .id,
        "portal-screencast"
    );
    assert!(db.for_symbol("printf").is_none());
}

#[test]
fn continuation_lines_extend_the_previous_key() {
    let db =
        CapDb::parse("[a]\ntitle = T\nrationale = one\n  two\nsymbols = s1\n  s2 s3\n").unwrap();
    let cap = db.get("a").unwrap();
    assert_eq!(cap.rationale, "one two");
    assert_eq!(cap.symbols, ["s1", "s2", "s3"]);
}

#[test]
fn rejects_malformed_databases() {
    let dup_symbol =
        "[a]\ntitle=t\nrationale=r\nsymbols=x\n[b]\ntitle=t\nrationale=r\nsymbols=x\n";
    assert!(matches!(
        CapDb::parse(dup_symbol),
        Err(DbError::Duplicate { line: 8, .. })
    ));
    let dup_id = "[a]\ntitle=t\nrationale=r\nsymbols=x\n[a]\n";
    assert!(matches!(
        CapDb::parse(dup_id),
        Err(DbError::Duplicate { line: 5, .. })
    ));
    assert!(matches!(
        CapDb::parse("[a]\ntitle=t\nsymbols=x\n"),
        Err(DbError::MissingField {
            field: "rationale",
            ..
        })
    ));
    assert!(matches!(
        CapDb::parse("[a]\ntitle=t\nrationale=r\n"),
        Err(DbError::MissingField { .. })
    ));
    assert!(matches!(
        CapDb::parse("[a]\ncolour=red\n"),
        Err(DbError::Syntax { line: 2, .. })
    ));
    assert!(matches!(
        CapDb::parse("title=t\n"),
        Err(DbError::Syntax { line: 1, .. })
    ));
    assert!(matches!(
        CapDb::parse("  stray\n"),
        Err(DbError::Syntax { line: 1, .. })
    ));
    assert!(matches!(
        CapDb::parse("[bad id]\n"),
        Err(DbError::Syntax { .. })
    ));
}

#[test]
fn cstr_requires_terminator_inside_table() {
    let table = b"\0abc\0de";
    assert_eq!(cstr(table, 1, "t").unwrap(), "abc");
    assert_eq!(cstr(table, 0, "t").unwrap(), "");
    assert!(matches!(
        cstr(table, 5, "t"),
        Err(ElfError::UnterminatedString { .. })
    ));
    assert!(matches!(
        cstr(table, 100, "t"),
        Err(ElfError::UnterminatedString { .. })
    ));
}

#[test]
fn reader_rejects_overflowing_ranges() {
    let data = [0u8; 8];
    let r = Reader {
        data: &data,
        endian: Endian::Big,
        class: Class::Elf64,
    };
    assert!(r.bytes(u64::MAX, 2, "x").is_err());
    assert!(r.bytes(4, u64::MAX, "x").is_err());
    assert!(r.u64(1, "x").is_err());
    assert_eq!(r.u64(0, "x").unwrap(), 0);
}

#[test]
fn short_and_foreign_inputs_are_typed_errors() {
    assert_eq!(ElfFile::parse(b""), Err(ElfError::NotElf));
    assert_eq!(ElfFile::parse(b"MZ\x90\0"), Err(ElfError::NotElf));
    assert!(matches!(
        ElfFile::parse(b"\x7fELF\x02\x01"),
        Err(ElfError::Truncated { .. })
    ));
    let mut ident = *b"\x7fELF\x03\x01\x01\0\0\0\0\0\0\0\0\0";
    assert_eq!(ElfFile::parse(&ident), Err(ElfError::UnsupportedClass(3)));
    ident[4] = 1;
    ident[5] = 9;
    assert_eq!(
        ElfFile::parse(&ident),
        Err(ElfError::UnsupportedEncoding(9))
    );
}

#[test]
fn origin_expansion() {
    assert_eq!(
        expand_origin("$ORIGIN/../lib", "/b/bin").unwrap(),
        "/b/bin/../lib"
    );
    assert_eq!(expand_origin("${ORIGIN}/x:y", "/o").unwrap(), "/o/x:y");
    assert_eq!(expand_origin("/abs", "/o").unwrap(), "/abs");
    assert_eq!(expand_origin("$ORIGIN", "/o").unwrap(), "/o");
    assert!(expand_origin("$ORIGINAL/lib", "/o").is_none());
    assert!(expand_origin("$LIB/x", "/o").is_none());
    assert!(expand_origin("/x/$PLATFORM", "/o").is_none());
}

#[test]
fn search_path_drops_empty_relative_and_unknown_entries() {
    let dirs = expand_search_path("::$ORIGIN/a:rel/dir:$LIB:/abs", "/r/bin");
    assert_eq!(dirs, ["/r/bin/a", "/abs"]);
}

#[test]
fn json_escapes_control_and_quote_characters() {
    assert_eq!(json_string("a\"b\\c"), r#""a\"b\\c""#);
    assert_eq!(json_string("x\ny\u{1}"), "\"x\\ny\\u0001\"");
    assert_eq!(json_string("libé.so"), "\"libé.so\"");
}

#[test]
fn table_pads_all_but_last_column() {
    let rows = vec![
        vec!["a".to_string(), "bbb".to_string(), "c".to_string()],
        vec!["aaaa".to_string(), "b".to_string(), "cc".to_string()],
    ];
    assert_eq!(table(&rows), "a     bbb  c\naaaa  b    cc\n");
}
