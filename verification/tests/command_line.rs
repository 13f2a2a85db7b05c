//! The command line, and where the reader library is looked for.
use symgraph::cli::{parse_args, Command, Question};
use symgraph::ffi::{
    error_text, first_library, library_candidates, named_library, record_deps, UnitDep, DEP_KIND_FILE,
    DEP_KIND_RECORD, DEP_KIND_UNIT,
};
use symgraph::store::{is_unit_name, scan_units_dir, DirEntry};
use symgraph::text::{is_text_le, join, parse_unsigned, push_int, push_nat, replace_all};

fn words(line: &str) -> Vec<String> {
    line.split_whitespace().map(|w| w.to_string()).collect()
}

fn ask_of(line: &str) -> Option<(Question, String, String, usize)> {
    match parse_args(&words(line)) {
        Ok(Command::Ask { question, db, query, limit }) => Some((question, db, query, limit)),
        _ => None,
    }
}

#[test]
fn an_update_names_the_store_and_the_graph() {
    match parse_args(&words("update /s /d")) {
        Ok(Command::Update { store, db, full }) => {
            assert_eq!(store, "/s");
            assert_eq!(db, "/d");
            assert!(!full);
        }
        _ => panic!("no update"),
    }
    match parse_args(&words("update /s /d x --full")) {
        Ok(Command::Update { full, .. }) => assert!(full),
        _ => panic!("no update"),
    }
    match parse_args(&words("update --full /d")) {
        Ok(Command::Update { store, db, full }) => {
            assert_eq!(store, "--full");
            assert_eq!(db, "/d");
            assert!(full);
        }
        _ => panic!("no update"),
    }
}

#[test]
fn questions_name_the_graph_and_what_is_asked() {
    let pairs = [
        ("find", Question::Find),
        ("refs", Question::Refs),
        ("callers", Question::Callers),
        ("callees", Question::Callees),
        ("hierarchy", Question::Hierarchy),
        ("members", Question::Members),
        ("outline", Question::Outline),
    ];
    for (word, question) in pairs {
        assert_eq!(
            ask_of(&format!("{word} /d A::b")),
            Some((question, "/d".to_string(), "A::b".to_string(), 50))
        );
        assert_eq!(
            ask_of(&format!("{word} /d A::b 7 more")),
            Some((question, "/d".to_string(), "A::b".to_string(), 7))
        );
    }
    match parse_args(&words("stats /d")) {
        Ok(Command::Stats { db }) => assert_eq!(db, "/d"),
        _ => panic!("no stats"),
    }
}

#[test]
fn a_limit_that_cannot_be_read_is_not_given() {
    let limit = |w: &str| match ask_of(&format!("find /d q {w}")) {
        Some(a) => a.3,
        None => panic!("no question"),
    };
    assert_eq!(limit("0"), 0);
    assert_eq!(limit("+12"), 12);
    assert_eq!(limit("-1"), 50);
    assert_eq!(limit("ten"), 50);
    assert_eq!(limit("1.5"), 50);
    assert_eq!(limit("18446744073709551615"), usize::MAX);
    assert_eq!(limit("18446744073709551616"), 50);
}

#[test]
fn anything_else_is_answered_with_the_usage() {
    let usage = "usage:\n  symgraph update <store-dir> <db-path> [--full]\n  symgraph stats <db-path>\n  \
                 symgraph find|refs|callers|callees|hierarchy|members|outline <db-path> <query> [limit]";
    for line in ["", "update", "update /s", "stats", "find", "find /d", "outline /d", "drop /d x", "Find /d x"] {
        match parse_args(&words(line)) {
            Ok(_) => panic!("{line} was understood"),
            Err(msg) => assert_eq!(msg, usage),
        }
    }
}

// ---- the reader library -------------------------------------------------

#[test]
fn the_library_is_looked_for_in_this_order() {
    assert_eq!(
        library_candidates(Some("/Dev")),
        vec![
            "/Dev/Toolchains/XcodeDefault.xctoolchain/usr/lib/libIndexStore.dylib",
            "/Dev/usr/lib/libIndexStore.dylib",
            "/Library/Developer/CommandLineTools/usr/lib/libIndexStore.dylib",
        ]
    );
    assert_eq!(
        library_candidates(None),
        vec!["/Library/Developer/CommandLineTools/usr/lib/libIndexStore.dylib"]
    );
}

#[test]
fn the_first_library_that_is_there_is_taken() {
    let places = |a: bool, b: bool| vec![("/a".to_string(), a), ("/b".to_string(), b)];
    assert_eq!(first_library(&places(true, true)), Ok("/a".to_string()));
    assert_eq!(first_library(&places(false, true)), Ok("/b".to_string()));
    assert_eq!(
        first_library(&places(false, false)),
        Err("libIndexStore.dylib 를 찾지 못함 (SYMGRAPH_LIBINDEXSTORE 로 지정 가능). 시도한 경로: /a, /b".to_string())
    );
}

#[test]
fn a_library_that_was_asked_for_has_to_be_there() {
    assert_eq!(named_library("/l".to_string(), true), Ok("/l".to_string()));
    assert_eq!(
        named_library("/l".to_string(), false),
        Err("SYMGRAPH_LIBINDEXSTORE 가 가리키는 파일이 없음: /l".to_string())
    );
}

#[test]
fn an_error_without_a_text_has_one() {
    assert_eq!(error_text(Some("bad".to_string())), "bad");
    assert_eq!(error_text(None), "unknown indexstore error");
}

#[test]
fn only_records_are_taken_of_dependencies() {
    let dep = |kind: u32, name: &str| UnitDep {
        kind,
        name: name.to_string(),
        file_path: format!("/{name}"),
        is_system: name == "c",
    };
    let deps = vec![dep(DEP_KIND_UNIT, "a"), dep(DEP_KIND_RECORD, "b"), dep(DEP_KIND_FILE, "x"), dep(DEP_KIND_RECORD, "c")];
    let r = record_deps(&deps);
    assert_eq!(r.len(), 2);
    assert_eq!(r[0].name, "b");
    assert_eq!(r[0].file_path, "/b");
    assert!(!r[0].is_system);
    assert_eq!(r[1].name, "c");
    assert!(r[1].is_system);
}

// ---- the directory of units ---------------------------------------------

#[test]
fn units_are_files_without_a_leading_dot() {
    let entry = |name: &str, is_file: bool, modified_ns: Option<u128>| DirEntry {
        name: name.to_string(),
        is_file,
        modified_ns,
    };
    let entries = vec![
        entry("a.o-1", true, Some(17)),
        entry(".hidden", true, Some(18)),
        entry("dir", false, Some(19)),
        entry("b.o-2", true, None),
        entry("a.o-1", true, Some(20)),
        entry("", true, Some(1 << 64)),
    ];
    let listing: Vec<(String, i64)> =
        scan_units_dir(&entries).into_iter().map(|s| (s.name, s.mtime_ns)).collect();
    assert_eq!(listing, vec![("a.o-1".to_string(), 20), ("b.o-2".to_string(), 0), ("".to_string(), 0)]);
    assert!(is_unit_name("a.o-1"));
    assert!(is_unit_name(""));
    assert!(!is_unit_name(".hidden"));
    assert!(!is_unit_name("."));
}

// ---- texts --------------------------------------------------------------

#[test]
fn numbers_are_written_and_read() {
    for n in [0u128, 7, 10, 99, 1234567890, u128::MAX] {
        let mut out = String::new();
        push_nat(&mut out, n);
        assert_eq!(out, format!("{n}"));
    }
    for n in [0i64, -1, 42, i64::MAX, i64::MIN] {
        let mut out = "x".to_string();
        push_int(&mut out, n);
        assert_eq!(out, format!("x{n}"));
    }
    assert_eq!(parse_unsigned("007"), Some(7));
    assert_eq!(parse_unsigned("+"), None);
    assert_eq!(parse_unsigned(""), None);
    assert_eq!(parse_unsigned("++1"), None);
}

#[test]
fn texts_are_ordered_like_their_bytes() {
    let words = ["", "a", "A", "ab", "b", "ä", "z", "\u{ffff}", "\u{10000}", "a b", "a\0b"];
    for a in words {
        for b in words {
            assert_eq!(is_text_le(a, b), a <= b, "{a} {b}");
        }
    }
}

#[test]
fn texts_are_joined_and_replaced() {
    let v = vec!["a".to_string(), "".to_string(), "b".to_string()];
    assert_eq!(join(&v, ", "), "a, , b");
    assert_eq!(join(&Vec::new(), ", "), "");
    for (s, from, to) in [("aXbXc", "X", "--"), ("aaa", "aa", "b"), ("none", "x", "y"), ("ende", "e", "")] {
        assert_eq!(replace_all(s, from, to), s.replace(from, to));
    }
}
