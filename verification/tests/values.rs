//! Exact values: what each function gives on inputs written out here, the text of
//! every error, and the laws of the library on single cases.

use elfcaps::analysis::{analyze, Confidence, Evidence, DYNAMIC_LOADERS};
use elfcaps::capdb::{CapDb, DbError};
use elfcaps::diff::{diff, CapabilityChange, Diff, EvidenceChange, EvidenceKey};
use elfcaps::elf::{
    cstr, looks_like_elf, Binding, Class, ElfError, ElfFile, Endian, Reader, Section, Segment,
    Symbol, SymbolType, SymbolVersion,
};
use elfcaps::loader::{expand_origin, expand_search_path};
use elfcaps::options::{
    diff_status, parse_command, parse_options, request, Action, Request, USAGE,
};
use elfcaps::order::{holds, insert_unique, relate_text, Relation};
use elfcaps::output::{
    capabilities_text, diff_json, diff_text, json_string, report_json, report_text, table,
};
use elfcaps::paths::{components_of, parent_of, path_below, relative_path};
use elfcaps::scan::{
    check_binary, check_inside, scan_root, FileError, Finding, NeededReport, ObjectReport, Report,
    ScanError,
};
use elfcaps::sort::sort_stably;
use elfcaps::text::{decimal_of, hex_of};
use elfcaps::textmap::TextMap;
use elfcaps::walk::{Kind, Walk};

fn texts(list: &[&str]) -> Vec<String> {
    list.iter().map(|s| s.to_string()).collect()
}

// ELF.

#[test]
fn elf_errors_say_what_is_wrong_and_where() {
    assert_eq!(ElfError::NotElf.message(), "not an ELF file");
    assert_eq!(
        ElfError::UnsupportedClass(3).message(),
        "unsupported ELF class 3"
    );
    assert_eq!(
        ElfError::UnsupportedEncoding(255).message(),
        "unsupported ELF data encoding 255"
    );
    assert_eq!(
        ElfError::Truncated {
            what: "ELF header",
            offset: 16,
            len: 48
        }
        .message(),
        "ELF header at offset 0x10 (+0x30) is out of bounds"
    );
    assert_eq!(
        ElfError::BadEntrySize {
            what: "section header",
            size: 10
        }
        .message(),
        "section header has invalid entry size 10"
    );
    assert_eq!(
        ElfError::BadSectionIndex {
            what: "e_shstrndx",
            index: 200
        }
        .message(),
        "e_shstrndx refers to missing section 200"
    );
    assert_eq!(
        ElfError::UnterminatedString {
            what: "symbol name",
            offset: 0xabc
        }
        .message(),
        "symbol name string at offset 0xabc is not NUL-terminated"
    );
}

#[test]
fn numbers_are_read_in_both_byte_orders() {
    let data = [0x01u8, 0x02, 0x03, 0x04, 0x05, 0x06, 0x07, 0x08];
    let little = Reader {
        data: &data,
        endian: Endian::Little,
        class: Class::Elf32,
    };
    let big = Reader {
        data: &data,
        endian: Endian::Big,
        class: Class::Elf64,
    };
    assert_eq!(little.u8(2, "x"), Ok(3));
    assert_eq!(little.u16(0, "x"), Ok(0x0201));
    assert_eq!(little.u32(1, "x"), Ok(0x0504_0302));
    assert_eq!(little.u64(0, "x"), Ok(0x0807_0605_0403_0201));
    assert_eq!(little.word(0, "x"), Ok(0x0403_0201));
    assert_eq!(little.word_size(), 4);
    assert_eq!(big.u16(0, "x"), Ok(0x0102));
    assert_eq!(big.u32(4, "x"), Ok(0x0506_0708));
    assert_eq!(big.u64(0, "x"), Ok(0x0102_0304_0506_0708));
    assert_eq!(big.word(0, "x"), Ok(0x0102_0304_0506_0708));
    assert_eq!(big.word_size(), 8);
    assert_eq!(big.bytes(6, 2, "x"), Ok(&data[6..]));
    assert_eq!(big.bytes(8, 0, "x"), Ok(&data[8..]));
    assert_eq!(
        big.u16(7, "half"),
        Err(ElfError::Truncated {
            what: "half",
            offset: 7,
            len: 2
        })
    );
    assert_eq!(little.with_data(&data[4..]).u8(0, "x"), Ok(5));
}

#[test]
fn strings_that_are_not_utf8_keep_what_can_be_read() {
    assert_eq!(cstr(b"a\xffb\0", 0, "t").unwrap(), "a\u{fffd}b");
    assert_eq!(
        cstr("libé.so\0".as_bytes(), 0, "t").unwrap(),
        "libé.so"
    );
    assert_eq!(cstr(b"a\xe2\x82\0", 0, "t").unwrap(), "a\u{fffd}");
    assert_eq!(
        cstr(b"abc", 1, "name"),
        Err(ElfError::UnterminatedString {
            what: "name",
            offset: 1
        })
    );
    assert_eq!(
        cstr(b"", 0, "name"),
        Err(ElfError::UnterminatedString {
            what: "name",
            offset: 0
        })
    );
}

#[test]
fn raw_codes_have_names() {
    assert_eq!(Binding::from_raw(0), Binding::Local);
    assert_eq!(Binding::from_raw(1), Binding::Global);
    assert_eq!(Binding::from_raw(2), Binding::Weak);
    assert_eq!(Binding::from_raw(13), Binding::Other(13));
    assert_eq!(SymbolType::from_raw(0), SymbolType::NoType);
    assert_eq!(SymbolType::from_raw(1), SymbolType::Object);
    assert_eq!(SymbolType::from_raw(2), SymbolType::Func);
    assert_eq!(SymbolType::from_raw(3), SymbolType::Section);
    assert_eq!(SymbolType::from_raw(4), SymbolType::File);
    assert_eq!(SymbolType::from_raw(5), SymbolType::Common);
    assert_eq!(SymbolType::from_raw(6), SymbolType::Tls);
    assert_eq!(SymbolType::from_raw(10), SymbolType::GnuIfunc);
    assert_eq!(SymbolType::from_raw(12), SymbolType::Other(12));
}

#[test]
fn the_magic_decides_what_looks_like_elf() {
    assert!(looks_like_elf(b"\x7fELF"));
    assert!(looks_like_elf(b"\x7fELF and more"));
    assert!(!looks_like_elf(b"\x7fEL"));
    assert!(!looks_like_elf(b"\x7fELG\x02"));
    assert!(!looks_like_elf(b""));
}

fn symbol(name: &str, section_index: u16) -> Symbol {
    Symbol {
        name: name.to_string(),
        binding: Binding::Global,
        kind: SymbolType::Func,
        section_index,
        value: 0,
        size: 0,
        version: None,
    }
}

fn object(symbols: Vec<Symbol>, strings: &[&str]) -> ElfFile {
    ElfFile {
        class: Class::Elf64,
        endian: Endian::Little,
        file_type: 3,
        machine: 62,
        interpreter: None,
        segments: Vec::new(),
        sections: Vec::new(),
        needed: Vec::new(),
        soname: None,
        rpath: None,
        runpath: None,
        symbols,
        rodata_strings: texts(strings),
    }
}

#[test]
fn executables_are_fixed_or_ask_for_an_interpreter() {
    let mut elf = object(Vec::new(), &[]);
    assert!(!elf.is_executable());
    let segment = |kind: u32| Segment {
        kind,
        flags: 0,
        offset: 0,
        vaddr: 0,
        filesz: 0,
        memsz: 0,
    };
    elf.segments = vec![segment(1), segment(3)];
    assert!(elf.is_executable());
    elf.file_type = 1;
    assert!(!elf.is_executable());
    elf.segments.clear();
    elf.file_type = 2;
    assert!(elf.is_executable());
}

#[test]
fn classes_and_byte_orders_have_short_names() {
    let mut elf = object(Vec::new(), &[]);
    assert_eq!(elf.class_name(), "ELF64-LE");
    elf.endian = Endian::Big;
    assert_eq!(elf.class_name(), "ELF64-BE");
    elf.class = Class::Elf32;
    assert_eq!(elf.class_name(), "ELF32-BE");
    elf.endian = Endian::Little;
    assert_eq!(elf.class_name(), "ELF32-LE");
}

#[test]
fn imports_are_the_undefined_symbols_with_a_name() {
    let elf = object(
        vec![symbol("a", 0), symbol("b", 5), symbol("", 0), symbol("c", 0)],
        &[],
    );
    let names: Vec<&str> = elf.imports().iter().map(|s| s.name.as_str()).collect();
    assert_eq!(names, ["a", "c"]);
    assert!(elf.symbols[0].is_undefined());
    assert!(!elf.symbols[1].is_undefined());
}

#[test]
fn a_header_alone_is_an_object_without_tables() {
    let mut data = b"\x7fELF\x02\x01\x01".to_vec();
    data.resize(64, 0);
    data[16] = 3;
    data[18] = 62;
    let elf = ElfFile::parse(&data).unwrap();
    assert_eq!(elf, object(Vec::new(), &[]));
    assert_eq!(elf.sections, Vec::<Section>::new());
    assert_eq!(
        ElfFile::parse(&data[..63]),
        Err(ElfError::Truncated {
            what: "ELF header",
            offset: 0,
            len: 64
        })
    );
}

// The capability database.

const TWO: &str = "\
# A comment.
[first]
title = The first
rationale = because
symbols = alpha beta
strings = org.example.First

[second-one]
  # A comment that starts with a blank.
title = The
  second
rationale = so
strings = alpha gamma
";

#[test]
fn a_database_lists_its_capabilities_in_order() {
    let db = CapDb::parse(TWO).unwrap();
    let ids: Vec<&str> = db.capabilities().iter().map(|c| c.id.as_str()).collect();
    assert_eq!(ids, ["first", "second-one"]);
    assert_eq!(db.get("second-one").unwrap().title, "The second");
    assert!(db.get("third").is_none());
    assert_eq!(db.rank("first"), 0);
    assert_eq!(db.rank("second-one"), 1);
    assert_eq!(db.rank("third"), usize::MAX);
    assert_eq!(db.for_symbol("beta").unwrap().id, "first");
    assert!(db.for_symbol("gamma").is_none());
    assert_eq!(db.for_string("gamma").unwrap().id, "second-one");
    assert!(db.for_string("beta").is_none());
    let copy = db.clone();
    assert_eq!(copy.capabilities(), db.capabilities());
    assert_eq!(copy.for_symbol("alpha"), db.for_symbol("alpha"));
}

#[test]
fn a_word_may_be_a_symbol_of_one_capability_and_a_string_of_another() {
    let db = CapDb::parse(TWO).unwrap();
    assert_eq!(db.for_symbol("alpha").unwrap().id, "first");
    assert_eq!(db.for_string("alpha").unwrap().id, "second-one");
}

#[test]
fn comments_and_blank_lines_mean_nothing() {
    let plain = "[a]\ntitle = t\nrationale = r\nsymbols = x\n";
    let noisy = "# one\n\n[a]\n\ttitle-less comment below\n";
    let with_comments = "# one\n\n[a]\n  \ntitle = t\n #two\nrationale = r\n#\nsymbols = x\n";
    assert_eq!(
        CapDb::parse(plain).unwrap().capabilities(),
        CapDb::parse(with_comments).unwrap().capabilities()
    );
    assert_eq!(
        CapDb::parse(noisy).unwrap_err().message(),
        "line 4: continuation line without a key"
    );
    assert!(CapDb::parse("").unwrap().capabilities().is_empty());
}

#[test]
fn database_errors_name_the_line() {
    let message = |text: &str| CapDb::parse(text).unwrap_err().message();
    assert_eq!(
        message("[a\n"),
        "line 1: section header must end with ']'"
    );
    assert_eq!(message("\n[a b]\n"), "line 2: invalid capability id 'a b'");
    assert_eq!(message("[ ]\n"), "line 1: invalid capability id ''");
    assert_eq!(message("[a]\nno value\n"), "line 2: expected 'key = value'");
    assert_eq!(
        message("title = t\n"),
        "line 1: key outside of a [capability] section"
    );
    assert_eq!(message("[a]\ncolour = red\n"), "line 2: unknown key 'colour'");
    assert_eq!(message("[a]\n[a]\n"), "line 2: 'a' is listed twice");
    assert_eq!(message("[a]\n"), "capability 'a' has no title");
    assert_eq!(
        message("[a]\ntitle = t\n"),
        "capability 'a' has no rationale"
    );
    assert_eq!(
        message("[a]\ntitle = t\nrationale = r\n"),
        "capability 'a' has no symbols or strings"
    );
    assert_eq!(
        CapDb::parse("[a]\ntitle=t\nrationale=r\nstrings=s\n# s\n  s\n").unwrap_err(),
        DbError::Duplicate {
            line: 6,
            name: "s".to_string()
        }
    );
}

#[test]
fn the_builtin_database_has_the_documented_capabilities() {
    let db = CapDb::builtin();
    let ids: Vec<&str> = db.capabilities().iter().map(|c| c.id.as_str()).collect();
    assert_eq!(
        ids,
        [
            "selection-read",
            "selection-watch",
            "screen-capture",
            "screen-change-tracking",
            "pipewire-stream",
            "portal-screencast",
            "input-record",
            "keyboard-grab",
            "xi2-event-selection",
            "input-injection",
            "window-introspection",
        ]
    );
}

#[test]
fn comment_and_blank_lines_mean_nothing_wherever_they_stand() {
    let plain = CapDb::parse(TWO).unwrap();
    let lines: Vec<&str> = TWO.lines().collect();
    for line in ["", "   ", "# title = other", "  # third", "\t\r"] {
        for at in 0..=lines.len() {
            let mut more = lines.clone();
            more.insert(at, line);
            let text = more.join("\n") + "\n";
            let db = CapDb::parse(&text).unwrap();
            assert_eq!(db.capabilities(), plain.capabilities(), "{line:?} at {at}");
        }
    }
}

#[test]
fn every_symbol_of_the_builtin_database_belongs_to_its_capability() {
    let db = CapDb::builtin();
    for cap in db.capabilities() {
        for s in &cap.symbols {
            assert_eq!(db.for_symbol(s).unwrap().id, cap.id);
        }
        for s in &cap.strings {
            assert_eq!(db.for_string(s).unwrap().id, cap.id);
        }
    }
}

// Evidence.

#[test]
fn evidence_is_sorted_and_holds_nothing_twice() {
    let db = CapDb::parse(TWO).unwrap();
    let mut versioned = symbol("beta", 0);
    versioned.version = Some(SymbolVersion {
        name: "V1".to_string(),
        file: Some("lib.so".to_string()),
        hidden: false,
    });
    let elf = object(
        vec![
            versioned,
            symbol("beta", 0),
            symbol("alpha", 7),
            symbol("dlsym", 0),
            symbol("beta", 0),
        ],
        &["alpha", "beta", "gamma", "libz.so"],
    );
    let found = analyze(&elf, &db);
    let item = |capability: &str, symbol: &str, version: Option<&str>, confidence| Evidence {
        capability: capability.to_string(),
        symbol: symbol.to_string(),
        version: version.map(str::to_string),
        confidence,
    };
    assert_eq!(
        found.evidence,
        [
            item("first", "alpha", None, Confidence::Indirect),
            item("first", "beta", None, Confidence::Direct),
            item("first", "beta", Some("V1"), Confidence::Direct),
            item("second-one", "alpha", None, Confidence::Indirect),
            item("second-one", "gamma", None, Confidence::Indirect),
        ]
    );
    assert!(found.imports_dynamic_loader);
    assert_eq!(found.dlopen_candidates, ["libz.so"]);
}

#[test]
fn each_dynamic_loader_makes_symbol_names_count() {
    let db = CapDb::parse(TWO).unwrap();
    assert_eq!(DYNAMIC_LOADERS, ["dlopen", "dlmopen", "dlsym", "dlvsym"]);
    for loader in DYNAMIC_LOADERS {
        let found = analyze(&object(vec![symbol(loader, 0)], &["beta"]), &db);
        assert!(found.imports_dynamic_loader);
        assert_eq!(found.evidence.len(), 1);
        let defined = analyze(&object(vec![symbol(loader, 3)], &["beta"]), &db);
        assert!(!defined.imports_dynamic_loader);
        assert!(defined.evidence.is_empty());
    }
    assert_eq!(Confidence::Direct.as_str(), "direct");
    assert_eq!(Confidence::Indirect.as_str(), "indirect");
}

// Search paths.

#[test]
fn every_origin_in_an_entry_is_expanded() {
    assert_eq!(
        expand_origin("$ORIGIN:${ORIGIN}", "/o").unwrap(),
        "/o:/o"
    );
    assert_eq!(expand_origin("$ORIGIN$ORIGIN-x", "/o").unwrap(), "/o/o-x");
    assert!(expand_origin("$ORIGIN_x", "/o").is_none());
    assert!(expand_origin("${ORIGIN", "/o").is_none());
    assert!(expand_origin("cost$", "/o").is_none());
    assert_eq!(expand_origin("", "/o").unwrap(), "");
    assert_eq!(
        expand_search_path("$ORIGIN", "relative"),
        Vec::<String>::new()
    );
    assert_eq!(
        expand_search_path("/b:/a:/b", "/o"),
        texts(&["/b", "/a", "/b"])
    );
}

#[test]
fn paths_go_by_their_components() {
    assert_eq!(path_below("/r", "lib/x.so"), "/r/lib/x.so");
    assert_eq!(path_below("/r/", "x"), "/r/x");
    assert_eq!(path_below("/r", "/abs"), "/abs");
    assert_eq!(parent_of("/r/lib/x.so").unwrap(), "/r/lib");
    assert_eq!(parent_of("/r").unwrap(), "/");
    assert_eq!(parent_of("x").unwrap(), "");
    assert!(parent_of("/").is_none());
    assert!(parent_of("").is_none());
    assert_eq!(components_of("/a//b/./c"), texts(&["/", "a", "b", "c"]));
    assert_eq!(relative_path("/a/b", "/a/b/c/d").unwrap(), "c/d");
    assert_eq!(relative_path("/a/b", "/a/b").unwrap(), "");
    assert!(relative_path("/a/b", "/a/bc").is_none());
    assert!(relative_path("/a/b", "/a").is_none());
}

// Walking and scanning.

#[test]
fn a_walk_gives_the_files_in_the_order_of_their_components() {
    let mut walk = Walk::new("/r".to_string());
    assert_eq!(walk.next_dir().unwrap(), "/r");
    walk.add_entry("/r/a-b".to_string(), Kind::File);
    walk.add_entry("/r/a".to_string(), Kind::Directory);
    walk.add_entry("/r/link".to_string(), Kind::Other);
    walk.add_entry("/r/gone".to_string(), Kind::Unknown("it left".to_string()));
    walk.add_entry("/r/z".to_string(), Kind::Directory);
    assert_eq!(walk.next_dir().unwrap(), "/r/z");
    walk.add_error("/r/z".to_string(), "locked".to_string());
    assert_eq!(walk.next_dir().unwrap(), "/r/a");
    walk.add_entry("/r/a/y".to_string(), Kind::File);
    walk.add_entry("/r/a/x".to_string(), Kind::File);
    assert!(walk.next_dir().is_none());
    let (files, errors) = walk.finish();
    assert_eq!(files, texts(&["/r/a/x", "/r/a/y", "/r/a-b"]));
    assert_eq!(
        errors,
        [
            ("/r/gone".to_string(), "it left".to_string()),
            ("/r/z".to_string(), "locked".to_string())
        ]
    );
}

#[test]
fn the_root_is_given_or_follows_from_the_target() {
    assert_eq!(scan_root("/a/app", Some("/b"), false), "/b");
    assert_eq!(scan_root("/a", None, true), "/a");
    assert_eq!(scan_root("/a/app", None, false), "/a");
    assert_eq!(scan_root("app", None, false), ".");
    assert!(check_inside("x", "/r/bin/x", "/r").is_ok());
    assert!(check_inside("x", "/r", "/r").is_ok());
    assert_eq!(
        check_inside("../x", "/rx", "/r").unwrap_err().message(),
        "../x is not inside root /r"
    );
}

#[test]
fn scan_errors_name_the_path() {
    assert_eq!(
        ScanError::Io {
            path: "/x".to_string(),
            message: "no such file".to_string()
        }
        .message(),
        "/x: no such file"
    );
    assert_eq!(
        check_binary("notes.txt", b"hello").unwrap_err().message(),
        "notes.txt: not an ELF file"
    );
    assert_eq!(
        check_binary("bad", b"\x7fELF\x09\x01\x01\0\0\0\0\0\0\0\0\0")
            .unwrap_err()
            .message(),
        "bad: unsupported ELF class 9"
    );
}

// Comparison.

fn finding(capability: &str, object: &str, symbol: &str, confidence: Confidence) -> Finding {
    Finding {
        capability: capability.to_string(),
        title: format!("The {capability}"),
        object: object.to_string(),
        symbol: symbol.to_string(),
        version: None,
        confidence,
        reached_via: vec![texts(&[object])],
    }
}

fn report(findings: Vec<Finding>) -> Report {
    Report {
        root: "r".to_string(),
        objects: Vec::new(),
        findings,
        errors: Vec::new(),
    }
}

fn key(object: &str, symbol: &str, confidence: Confidence) -> EvidenceKey {
    EvidenceKey {
        object: object.to_string(),
        symbol: symbol.to_string(),
        confidence,
    }
}

#[test]
fn a_report_equals_itself() {
    let a = report(vec![
        finding("x", "o", "s", Confidence::Direct),
        finding("x", "o", "s", Confidence::Direct),
    ]);
    let d = diff(&a, &a);
    assert!(d.is_empty());
    assert_eq!(d, Diff::default());
    assert_eq!(diff_status(&d), 0);
}

#[test]
fn a_comparison_turned_round_swaps_what_came_and_went() {
    let a = report(vec![
        finding("gone", "o", "s", Confidence::Direct),
        finding("kept", "o", "t", Confidence::Indirect),
    ]);
    let b = report(vec![
        finding("kept", "p", "t", Confidence::Indirect),
        finding("new", "p", "v", Confidence::Direct),
        finding("new", "o", "u", Confidence::Direct),
    ]);
    let there = diff(&a, &b);
    let back = diff(&b, &a);
    assert_eq!(there.added, back.removed);
    assert_eq!(there.removed, back.added);
    assert_eq!(diff_status(&there), 1);
    assert_eq!(
        there.added,
        [CapabilityChange {
            capability: "new".to_string(),
            title: "The new".to_string(),
            evidence: vec![
                key("o", "u", Confidence::Direct),
                key("p", "v", Confidence::Direct)
            ],
        }]
    );
    assert_eq!(
        there.changed,
        [EvidenceChange {
            capability: "kept".to_string(),
            title: "The kept".to_string(),
            added: vec![key("p", "t", Confidence::Indirect)],
            removed: vec![key("o", "t", Confidence::Indirect)],
        }]
    );
    assert_eq!(there.changed[0].added, back.changed[0].removed);
}

#[test]
fn chains_do_not_count_in_a_comparison() {
    let a = report(vec![finding("x", "o", "s", Confidence::Direct)]);
    let mut b = a.clone();
    b.findings[0].reached_via = vec![texts(&["app", "lib", "o"])];
    b.findings[0].version = Some("V1".to_string());
    b.root = "elsewhere".to_string();
    assert!(diff(&a, &b).is_empty());
}

// Output.

/// Reads back a string that was written as JSON.
fn json_value(s: &str) -> String {
    let inner = s.strip_prefix('"').unwrap().strip_suffix('"').unwrap();
    let mut out = String::new();
    let mut chars = inner.chars();
    while let Some(c) = chars.next() {
        if c != '\\' {
            assert!(c != '"');
            out.push(c);
            continue;
        }
        match chars.next().unwrap() {
            'n' => out.push('\n'),
            'r' => out.push('\r'),
            't' => out.push('\t'),
            'u' => {
                let digits: String = chars.by_ref().take(4).collect();
                let code = u32::from_str_radix(&digits, 16).unwrap();
                out.push(char::from_u32(code).unwrap());
            }
            other => out.push(other),
        }
    }
    out
}

#[test]
fn json_strings_can_be_read_back() {
    let all: String = (0u32..0x100)
        .map(|c| char::from_u32(c).unwrap())
        .chain("日本語 \u{1f600}".chars())
        .collect();
    let json = json_string(&all);
    assert_eq!(json_value(&json), all);
    assert!(json.chars().all(|c| c >= ' '));
    assert_eq!(json_string(""), "\"\"");
    assert_eq!(json_string("\r\t\u{1f}"), "\"\\r\\t\\u001f\"");
}

fn sample() -> Report {
    Report {
        root: "my \"app\"".to_string(),
        objects: vec![
            ObjectReport {
                path: "app".to_string(),
                executable: true,
                format: "ELF64-LE".to_string(),
                machine: 62,
                soname: None,
                rpath: Some("$ORIGIN".to_string()),
                runpath: None,
                needed: vec![
                    NeededReport {
                        name: "liba.so".to_string(),
                        resolved: Some("liba.so".to_string()),
                    },
                    NeededReport {
                        name: "libc.so.6".to_string(),
                        resolved: None,
                    },
                ],
                imports_dynamic_loader: true,
                dlopen_candidates: texts(&["libz.so", "liby.so"]),
            },
            ObjectReport {
                path: "liba.so".to_string(),
                executable: false,
                format: "ELF64-LE".to_string(),
                machine: 62,
                soname: Some("liba.so".to_string()),
                rpath: None,
                runpath: None,
                needed: Vec::new(),
                imports_dynamic_loader: false,
                dlopen_candidates: Vec::new(),
            },
        ],
        findings: vec![
            Finding {
                capability: "first".to_string(),
                title: "The first".to_string(),
                object: "app".to_string(),
                symbol: "alpha".to_string(),
                version: Some("V1".to_string()),
                confidence: Confidence::Direct,
                reached_via: vec![texts(&["app"])],
            },
            Finding {
                capability: "second-one".to_string(),
                title: "The second".to_string(),
                object: "liba.so".to_string(),
                symbol: "gamma".to_string(),
                version: None,
                confidence: Confidence::Indirect,
                reached_via: vec![texts(&["app", "liba.so"]), texts(&["liba.so"])],
            },
            Finding {
                capability: "second-one".to_string(),
                title: "The second".to_string(),
                object: "liba.so".to_string(),
                symbol: "delta".to_string(),
                version: None,
                confidence: Confidence::Indirect,
                reached_via: vec![texts(&["liba.so"])],
            },
        ],
        errors: vec![FileError {
            path: "broken".to_string(),
            message: "not readable".to_string(),
        }],
    }
}

#[test]
fn a_report_as_text() {
    let db = CapDb::parse(TWO).unwrap();
    assert_eq!(
        report_text(&sample(), &db),
        "\
Scanned my \"app\": 2 ELF objects (1 executable), 3 findings in 2 capabilities.

CAPABILITY  OBJECT   SYMBOL    CONFIDENCE  REACHED VIA
first       app      alpha@V1  direct      (executable)
second-one  liba.so  gamma     indirect    app -> liba.so (+1 more)
second-one  liba.so  delta     indirect    (not linked from any executable)

Capabilities found:
  first                  The first
  second-one             The second

Library names in objects that import dlopen/dlsym:
  app: libz.so, liby.so

DT_NEEDED not found in the bundle (left to the system):
  app: libc.so.6

Could not load:
  broken: not readable
"
    );
    let mut loose = sample();
    loose.findings[1].reached_via = vec![texts(&["liba.so", "app"])];
    loose.findings[2].reached_via = Vec::new();
    let text = report_text(&loose, &db);
    assert!(text.contains("second-one  liba.so  gamma     indirect    liba.so -> app (no executable)\n"));
    assert!(text.contains("second-one  liba.so  delta     indirect\n"));
    assert_eq!(
        report_text(&report(Vec::new()), &db),
        "\
Scanned r: 0 ELF objects (0 executable), 0 findings in 0 capabilities.

No imports or strings from the capability database were found.
"
    );
}

#[test]
fn a_report_as_json_is_one_line() {
    let json = report_json(&sample());
    assert_eq!(
        json,
        "{\"root\":\"my \\\"app\\\"\",\"objects\":[\
{\"path\":\"app\",\"executable\":true,\"format\":\"ELF64-LE\",\"machine\":62,\"soname\":null,\
\"rpath\":\"$ORIGIN\",\"runpath\":null,\"needed\":[\
{\"name\":\"liba.so\",\"resolved\":\"liba.so\"},{\"name\":\"libc.so.6\",\"resolved\":null}],\
\"imports_dynamic_loader\":true,\"dlopen_candidates\":[\"libz.so\",\"liby.so\"]},\
{\"path\":\"liba.so\",\"executable\":false,\"format\":\"ELF64-LE\",\"machine\":62,\
\"soname\":\"liba.so\",\"rpath\":null,\"runpath\":null,\"needed\":[],\
\"imports_dynamic_loader\":false,\"dlopen_candidates\":[]}],\"findings\":[\
{\"capability\":\"first\",\"title\":\"The first\",\"object\":\"app\",\"symbol\":\"alpha\",\
\"version\":\"V1\",\"confidence\":\"direct\",\"reached_via\":[[\"app\"]]},\
{\"capability\":\"second-one\",\"title\":\"The second\",\"object\":\"liba.so\",\
\"symbol\":\"gamma\",\"version\":null,\"confidence\":\"indirect\",\
\"reached_via\":[[\"app\",\"liba.so\"],[\"liba.so\"]]},\
{\"capability\":\"second-one\",\"title\":\"The second\",\"object\":\"liba.so\",\
\"symbol\":\"delta\",\"version\":null,\"confidence\":\"indirect\",\
\"reached_via\":[[\"liba.so\"]]}],\"errors\":[\
{\"path\":\"broken\",\"message\":\"not readable\"}]}\n"
    );
    let mut odd = sample();
    odd.findings[0].symbol = "line\nbreak\u{0}".to_string();
    assert_eq!(report_json(&odd).lines().count(), 1);
}

#[test]
fn the_only_control_character_of_json_is_its_last() {
    let mut odd = sample();
    odd.root = (0..0x30u8).map(|b| b as char).collect();
    odd.errors[0].message = "tab\there\r\n".to_string();
    let json = report_json(&odd);
    let body = json.strip_suffix('\n').unwrap();
    assert!(body.starts_with('{') && body.ends_with('}'));
    assert!(body.chars().all(|c| c >= ' '));
}

#[test]
fn different_reports_are_different_as_json() {
    let change = |f: &dyn Fn(&mut Report)| {
        let mut r = sample();
        f(&mut r);
        r
    };
    let reports = [
        sample(),
        change(&|r| r.root = "my app".to_string()),
        change(&|r| r.objects[0].soname = Some("null".to_string())),
        change(&|r| r.objects[0].soname = Some(String::new())),
        change(&|r| r.objects[0].dlopen_candidates = texts(&["libz.so\",\"liby.so"])),
        change(&|r| r.objects[0].machine = 6),
        change(&|r| r.objects[1].executable = true),
        change(&|r| r.findings[1].reached_via = vec![texts(&["app", "liba.so", "liba.so"])]),
        change(&|r| {
            r.findings[1].reached_via = vec![texts(&["app"]), texts(&["liba.so", "liba.so"])]
        }),
        change(&|r| r.findings[2].confidence = Confidence::Direct),
        change(&|r| r.findings.truncate(2)),
        change(&|r| r.errors[0].message = "not\nreadable".to_string()),
        change(&|r| r.errors[0].message = "not\\nreadable".to_string()),
    ];
    for (i, a) in reports.iter().enumerate() {
        for (j, b) in reports.iter().enumerate() {
            assert_eq!(report_json(a) == report_json(b), i == j, "{i} and {j}");
        }
    }
    let with = |symbol: &str| Diff {
        added: vec![CapabilityChange {
            capability: "c".to_string(),
            title: "t".to_string(),
            evidence: vec![EvidenceKey {
                object: "o".to_string(),
                symbol: symbol.to_string(),
                confidence: Confidence::Direct,
            }],
        }],
        ..Diff::default()
    };
    let mut moved = with("s");
    moved.removed = std::mem::take(&mut moved.added);
    let texts_of = [diff_json(&with("s")), diff_json(&with("s\"")), diff_json(&moved)];
    assert!(texts_of[0] != texts_of[1] && texts_of[0] != texts_of[2] && texts_of[1] != texts_of[2]);
}

#[test]
fn a_comparison_as_text_and_json() {
    let a = report(vec![
        finding("gone", "o", "s", Confidence::Direct),
        finding("kept", "o", "t", Confidence::Indirect),
    ]);
    let b = report(vec![
        finding("kept", "p", "t", Confidence::Direct),
        finding("new", "p", "v", Confidence::Direct),
    ]);
    let d = diff(&a, &b);
    assert_eq!(
        diff_text(&d, "one", "two"),
        "\
Capability diff one -> two

+ new  The new
    p  v  direct
- gone  The gone
    o  s  direct
~ kept  evidence changed
    + p  t  direct
    - o  t  indirect
"
    );
    assert_eq!(
        diff_json(&d),
        "{\"added\":[{\"capability\":\"new\",\"title\":\"The new\",\"evidence\":[\
{\"object\":\"p\",\"symbol\":\"v\",\"confidence\":\"direct\"}]}],\
\"removed\":[{\"capability\":\"gone\",\"title\":\"The gone\",\"evidence\":[\
{\"object\":\"o\",\"symbol\":\"s\",\"confidence\":\"direct\"}]}],\
\"changed\":[{\"capability\":\"kept\",\"title\":\"The kept\",\
\"added\":[{\"object\":\"p\",\"symbol\":\"t\",\"confidence\":\"direct\"}],\
\"removed\":[{\"object\":\"o\",\"symbol\":\"t\",\"confidence\":\"indirect\"}]}]}\n"
    );
    assert_eq!(
        diff_text(&Diff::default(), "one", "two"),
        "Capability diff one -> two\n\nNo capability changes.\n"
    );
}

#[test]
fn the_database_as_text() {
    let db = CapDb::parse(TWO).unwrap();
    assert_eq!(
        capabilities_text(&db),
        "\
first
  The first
  symbols: alpha beta
  strings: org.example.First
  why: because

second-one
  The second
  strings: alpha gamma
  why: so

"
    );
}

#[test]
fn tables_count_characters_and_drop_blanks_at_the_end() {
    assert_eq!(table(&Vec::new()), "");
    let rows = vec![texts(&["é", "x", ""]), texts(&["ab", "", ""])];
    assert_eq!(table(&rows), "é   x\nab\n");
    assert_eq!(table(&vec![texts(&["one "])]), "one\n");
    assert_eq!(table(&vec![Vec::new(), Vec::new()]), "\n\n");
}

#[test]
fn numbers_as_text() {
    assert_eq!(decimal_of(0), "0");
    assert_eq!(decimal_of(u64::MAX), "18446744073709551615");
    assert_eq!(hex_of(0), "0x0");
    assert_eq!(hex_of(0xdead_beef), "0xdeadbeef");
}

// The command line.

#[test]
fn options_may_stand_anywhere_and_the_last_value_counts() {
    let options = parse_options(&texts(&[
        "a", "--root", "/one", "--json", "b", "--root", "--db", "--db", "x.db",
    ]))
    .unwrap();
    assert_eq!(options.positional, texts(&["a", "b"]));
    assert!(options.json);
    assert_eq!(options.root.as_deref(), Some("--db"));
    assert_eq!(options.db.as_deref(), Some("x.db"));
    let options = parse_options(&texts(&["-x"])).unwrap();
    assert_eq!(options.positional, texts(&["-x"]));
    let message = |args: &[&str]| parse_options(&texts(args)).unwrap_err();
    assert_eq!(message(&["--root"]), "--root needs a directory");
    assert_eq!(message(&["a", "--db"]), "--db needs a file");
    assert_eq!(message(&["--bogus"]), "unknown option --bogus");
}

#[test]
fn commands_take_their_own_arguments() {
    let action = |args: &[&str]| parse_command(&texts(args)).and_then(|i| i.action());
    assert!(matches!(
        action(&["scan", "x", "--json", "--root", "r"]),
        Ok(Action::Scan { target, root: Some(root), json: true }) if target == "x" && root == "r"
    ));
    assert!(matches!(
        action(&["diff", "a", "b"]),
        Ok(Action::Diff { first, second, json: false }) if first == "a" && second == "b"
    ));
    assert!(matches!(action(&["caps"]), Ok(Action::Caps)));
    assert_eq!(action(&[]).unwrap_err(), "missing command");
    assert_eq!(action(&["scan"]).unwrap_err(), "wrong arguments for scan");
    assert_eq!(
        action(&["diff", "a"]).unwrap_err(),
        "wrong arguments for diff"
    );
    assert_eq!(
        action(&["caps", "a"]).unwrap_err(),
        "wrong arguments for caps"
    );
    assert_eq!(action(&["frob"]).unwrap_err(), "unknown command frob");
    assert_eq!(
        action(&["diff", "a", "b", "--root", "r"]).unwrap_err(),
        "--root is not supported by diff"
    );
}

#[test]
fn help_and_version_come_before_everything_else() {
    assert_eq!(request(&[]), Request::Usage(2));
    assert_eq!(request(&texts(&["scan", "-h"])), Request::Usage(0));
    assert_eq!(request(&texts(&["-V", "--help"])), Request::Usage(0));
    assert_eq!(request(&texts(&["scan", "--version"])), Request::Version);
    assert_eq!(request(&texts(&["-V"])), Request::Version);
    assert_eq!(request(&texts(&["scan", "x"])), Request::Run);
    assert!(USAGE.contains("elfcaps diff <old> <new> [--json] [--db <file>]\n"));
}

// Order.

#[test]
fn texts_are_ordered_by_their_bytes() {
    assert_eq!(relate_text("a", "ab"), Relation::Before);
    assert_eq!(relate_text("b", "ab"), Relation::After);
    assert_eq!(relate_text("é", "é"), Relation::Same);
    assert_eq!(relate_text("z", "é"), Relation::Before);
    assert_eq!(relate_text("\u{ffff}", "\u{10000}"), Relation::Before);
    let mut list: Vec<String> = Vec::new();
    for s in ["b", "a", "c", "b"] {
        insert_unique(&mut list, s.to_string());
    }
    assert_eq!(list, texts(&["a", "b", "c"]));
    assert!(holds(&list, &"b".to_string()));
    assert!(!holds(&list, &"d".to_string()));
}

#[test]
fn sorting_keeps_the_order_of_equal_keys() {
    let item = |k: &str, n: u8| (k.to_string(), n);
    let sorted = sort_stably(vec![item("b", 1), item("a", 2), item("b", 3), item("a", 4)]);
    assert_eq!(
        sorted,
        [item("a", 2), item("a", 4), item("b", 1), item("b", 3)]
    );
}

#[test]
fn maps_keep_their_keys_in_order() {
    let mut map: TextMap<usize> = TextMap::new();
    map.insert("b".to_string(), 1);
    map.insert("a".to_string(), 2);
    map.insert("b".to_string(), 3);
    assert_eq!(map.len(), 2);
    assert_eq!(map.entry(0), (&"a".to_string(), &2));
    assert_eq!(map.entry(1), (&"b".to_string(), &3));
    assert_eq!(map.get("b"), Some(&3));
    assert_eq!(map.get("c"), None);
    assert!(map.has("a"));
    let copy = map.duplicate();
    assert_eq!(copy.get("a"), Some(&2));
}
