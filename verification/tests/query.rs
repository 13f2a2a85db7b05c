//! Answers, word for word.
use symgraph::cli::{ask, Question};
use symgraph::db::{
    is_current, wipe, FileRow, Graph, LinkRow, OccRow, RecordRow, RelationRow, SymbolRow, UnitRow,
    SCHEMA_VERSION,
};
use symgraph::ffi::{
    ROLE_ADDRESSOF, ROLE_CALL, ROLE_DECLARATION, ROLE_DEFINITION, ROLE_DYNAMIC, ROLE_IMPLICIT, ROLE_READ,
    ROLE_REFERENCE, ROLE_REL_BASEOF, ROLE_REL_CALLEDBY, ROLE_REL_CHILDOF, ROLE_REL_CONTAINEDBY,
    ROLE_REL_OVERRIDEOF, ROLE_REL_SPECIALIZATIONOF, ROLE_WRITE,
};
use symgraph::query::{
    callees, callers, def_locations, find, hierarchy, kind_name, members, outline, refs, resolve,
    resolve_targets, roles_text, stats, sym_headline, OccRows, Shortener,
};

const SHAPE: i64 = 1;
const CIRCLE: i64 = 2;
const SHAPE_AREA: i64 = 3;
const CIRCLE_AREA: i64 = 4;
const MAIN: i64 = 5;
const RADIUS: i64 = 6;
const STATIC_CLASS: i64 = 7;

fn text(s: &str) -> String {
    s.to_string()
}

fn symbol(id: i64, usr: &str, name: &str, kind: i64) -> SymbolRow {
    SymbolRow { id, usr: text(usr), name: text(name), kind, lang: 4 }
}

fn file(id: i64, path: &str) -> FileRow {
    FileRow { id, path: text(path) }
}

fn record(id: i64, name: &str, file_id: i64) -> RecordRow {
    RecordRow { id, name: text(name), file_id }
}

fn occ(id: i64, record_id: i64, symbol_id: i64, roles: u64, line: i64, col: i64) -> OccRow {
    OccRow { id, record_id, symbol_id, roles: roles as i64, line, col }
}

fn rel(occ_id: i64, roles: u64, symbol_id: i64) -> RelationRow {
    RelationRow { occ_id, roles: roles as i64, symbol_id }
}

/// A class with a method, a class derived from it that overrides the method, and
/// a function that calls it.
fn shapes() -> Graph {
    let files = vec![file(1, "/p/shape.h"), file(2, "/p/circle.cpp"), file(3, "/p/main.cpp")];
    let symbols = vec![
        symbol(SHAPE, "c:@S@Shape", "Shape", 7),
        symbol(CIRCLE, "c:@S@Circle", "Circle", 7),
        symbol(SHAPE_AREA, "c:@S@Shape@F@area#", "area", 16),
        symbol(CIRCLE_AREA, "c:@S@Circle@F@area#", "area", 16),
        symbol(MAIN, "c:@F@main#", "main", 12),
        symbol(RADIUS, "c:@S@Circle@FI@radius", "radius", 14),
        symbol(STATIC_CLASS, "c:@S@Circle@F@StaticClass#S", "StaticClass", 18),
    ];
    let records = vec![record(1, "shape.h-1", 1), record(2, "circle.cpp-1", 2), record(3, "main.cpp-1", 3)];
    let units = vec![
        UnitRow { id: 1, name: text("circle.o"), main_file_id: Some(2), module_name: text(""), mtime_ns: 10 },
        UnitRow { id: 2, name: text("main.o"), main_file_id: Some(3), module_name: text(""), mtime_ns: 11 },
    ];
    let links = vec![
        LinkRow { unit_id: 1, record_id: 1 },
        LinkRow { unit_id: 1, record_id: 2 },
        LinkRow { unit_id: 2, record_id: 1 },
        LinkRow { unit_id: 2, record_id: 3 },
    ];
    let occurrences = vec![
        occ(1, 1, SHAPE, ROLE_DEFINITION, 3, 7),
        occ(2, 1, SHAPE_AREA, ROLE_DECLARATION, 4, 18),
        occ(3, 2, CIRCLE, ROLE_DEFINITION, 5, 7),
        occ(4, 2, SHAPE, ROLE_REFERENCE, 5, 23),
        occ(5, 2, RADIUS, ROLE_DEFINITION, 8, 9),
        occ(6, 2, CIRCLE_AREA, ROLE_DEFINITION | ROLE_DYNAMIC, 6, 9),
        occ(7, 2, STATIC_CLASS, ROLE_DEFINITION, 7, 9),
        occ(8, 2, RADIUS, ROLE_REFERENCE | ROLE_READ, 6, 30),
        occ(9, 3, MAIN, ROLE_DEFINITION, 2, 5),
        occ(10, 3, SHAPE_AREA, ROLE_REFERENCE | ROLE_CALL | ROLE_DYNAMIC, 4, 12),
        occ(11, 3, CIRCLE, ROLE_REFERENCE, 3, 3),
    ];
    let relations = vec![
        rel(2, ROLE_REL_CHILDOF, SHAPE),
        rel(4, ROLE_REL_BASEOF, CIRCLE),
        rel(5, ROLE_REL_CHILDOF, CIRCLE),
        rel(6, ROLE_REL_CHILDOF | ROLE_REL_OVERRIDEOF, SHAPE_AREA),
        rel(6, ROLE_REL_CHILDOF, CIRCLE),
        rel(7, ROLE_REL_CHILDOF, CIRCLE),
        rel(8, ROLE_REL_CONTAINEDBY, CIRCLE_AREA),
        rel(10, ROLE_REL_CALLEDBY | ROLE_REL_CONTAINEDBY, MAIN),
        rel(11, ROLE_REL_CONTAINEDBY, MAIN),
    ];
    match Graph::from_tables(files, symbols, records, units, links, occurrences, relations) {
        Some(g) => g,
        None => panic!("the tables do not keep their keys"),
    }
}

fn plain() -> Shortener {
    Shortener::default()
}

// ---- names --------------------------------------------------------------

#[test]
fn kinds_have_names() {
    let names = [
        "module", "namespace", "namespace-alias", "macro", "enum", "struct", "class", "protocol", "extension",
        "union", "typealias", "function", "variable", "field", "enum-constant", "instance-method",
        "class-method", "static-method", "instance-property", "class-property", "static-property",
        "constructor", "destructor", "conversion-function", "parameter", "using", "concept",
    ];
    for (i, name) in names.iter().enumerate() {
        assert_eq!(kind_name(i as i64 + 1), *name);
    }
    for kind in [0, 28, -1, i64::MAX, i64::MIN] {
        assert_eq!(kind_name(kind), "unknown");
    }
}

#[test]
fn roles_have_tags() {
    let all = ROLE_DEFINITION
        | ROLE_DECLARATION
        | ROLE_CALL
        | ROLE_REFERENCE
        | ROLE_READ
        | ROLE_WRITE
        | ROLE_ADDRESSOF
        | ROLE_DYNAMIC
        | ROLE_IMPLICIT;
    assert_eq!(roles_text(all as i64), "def,decl,call,ref,read,write,addrof,dyn,implicit");
    assert_eq!(roles_text(0), "");
    assert_eq!(roles_text(ROLE_WRITE as i64), "write");
    assert_eq!(roles_text((ROLE_CALL | ROLE_REFERENCE) as i64), "call,ref");
    assert_eq!(roles_text(ROLE_REL_CALLEDBY as i64), "");
    assert_eq!(roles_text(-1), "def,decl,call,ref,read,write,addrof,dyn,implicit");
}

#[test]
fn the_first_prefix_is_replaced() {
    let sh = Shortener::new(vec![
        (text("/abs/project/"), text("")),
        (text("/abs/"), text("ABS/")),
        (text("/abs/project/x"), text("never")),
    ]);
    assert_eq!(sh.s("/abs/project/x/y.h"), "x/y.h");
    assert_eq!(sh.s("/abs/engine/z.h"), "ABS/engine/z.h");
    assert_eq!(sh.s("/other/abs/z.h"), "/other/abs/z.h");
    assert_eq!(sh.s("/abs/"), "ABS/");
    assert_eq!(sh.s(""), "");
    assert_eq!(plain().s("/abs/a.h"), "/abs/a.h");
    let all = Shortener::new(vec![(text(""), text(">"))]);
    assert_eq!(all.s("größe.h"), ">größe.h");
}

// ---- find ---------------------------------------------------------------

#[test]
fn a_symbol_is_found_by_its_usr() {
    let g = shapes();
    let found = resolve(&g, "c:@S@Shape", 0);
    assert_eq!(found.len(), 1);
    assert_eq!(found[0].id, SHAPE);
    assert_eq!(found[0].name, "Shape");
    assert_eq!(found[0].kind, 7);
    assert!(resolve(&g, "c:@S@Shap", 10).is_empty());
    assert!(resolve(&g, "c:", 10).is_empty());
}

#[test]
fn a_symbol_is_found_by_its_scoped_name() {
    let g = shapes();
    let ids = |q: &str| resolve(&g, q, 10).iter().map(|s| s.id).collect::<Vec<_>>();
    assert_eq!(ids("Circle::area"), vec![CIRCLE_AREA]);
    assert_eq!(ids("Shape::area"), vec![SHAPE_AREA]);
    assert_eq!(ids("circle::area"), vec![CIRCLE_AREA]);
    assert_eq!(ids("Circle::Area"), Vec::<i64>::new());
    assert_eq!(ids("::area"), vec![SHAPE_AREA, CIRCLE_AREA]);
    assert_eq!(ids("area::"), vec![SHAPE_AREA, CIRCLE_AREA]);
    assert_eq!(ids("Circle::Shape::area"), Vec::<i64>::new());
    assert_eq!(ids("Circle::radius"), vec![RADIUS]);
}

#[test]
fn a_symbol_is_found_by_its_name_and_else_by_a_part_of_it() {
    let g = shapes();
    let ids = |q: &str, n: usize| resolve(&g, q, n).iter().map(|s| s.id).collect::<Vec<_>>();
    assert_eq!(ids("area", 10), vec![SHAPE_AREA, CIRCLE_AREA]);
    assert_eq!(ids("area", 1), vec![SHAPE_AREA]);
    assert_eq!(ids("a", 10), vec![SHAPE_AREA, CIRCLE_AREA, MAIN, SHAPE, RADIUS, STATIC_CLASS]);
    assert_eq!(ids("a", 3), vec![SHAPE_AREA, CIRCLE_AREA, MAIN]);
    assert_eq!(ids("AREA", 10), vec![SHAPE_AREA, CIRCLE_AREA]);
    assert_eq!(ids("ci_c", 10), Vec::<i64>::new());
    assert_eq!(ids("%", 10), Vec::<i64>::new());
    assert_eq!(ids("", 10).len(), 7);
    assert_eq!(ids("nothing", 10), Vec::<i64>::new());
    assert_eq!(ids("::", 10), Vec::<i64>::new());
    assert_eq!(ids("area", 0), Vec::<i64>::new());
}

#[test]
fn find_tells_kind_place_and_usr() {
    let g = shapes();
    assert_eq!(
        find(&g, &plain(), "area", 10),
        "area [instance-method] (no definition indexed)\n  usr: c:@S@Shape@F@area#\n\
         area [instance-method] /p/circle.cpp:6\n  usr: c:@S@Circle@F@area#\n"
    );
    let sh = Shortener::new(vec![(text("/p/"), text(""))]);
    assert_eq!(find(&g, &sh, "Shape", 10), "Shape [class] shape.h:3\n  usr: c:@S@Shape\n");
    assert_eq!(find(&g, &sh, "Square", 10), "no symbols match: Square");
}

#[test]
fn a_headline_names_three_places_at_most() {
    let mut g = shapes();
    for (i, line) in [9, 8, 9, 7].iter().enumerate() {
        let id = 20 + i as i64;
        let record_id = if i < 3 { 2 } else { 1 };
        g.occurrences.push(occ(id, record_id, MAIN, ROLE_DEFINITION, *line, 1));
    }
    assert_eq!(
        def_locations(&g, &plain(), MAIN, 10),
        vec!["/p/circle.cpp:9", "/p/circle.cpp:8", "/p/main.cpp:2", "/p/shape.h:7"]
    );
    let main = resolve(&g, "main", 1);
    assert_eq!(
        sym_headline(&g, &plain(), &main[0]),
        "main [function] /p/circle.cpp:9 | /p/circle.cpp:8 | /p/main.cpp:2\n  usr: c:@F@main#"
    );
}

// ---- few and many -------------------------------------------------------

fn overloads(n: i64) -> Graph {
    let mut symbols = Vec::new();
    for i in 1..=n {
        symbols.push(symbol(i, &format!("c:@F@go#{i}"), "go", 12));
    }
    match Graph::from_tables(
        Vec::new(),
        symbols,
        Vec::new(),
        Vec::new(),
        Vec::new(),
        Vec::new(),
        Vec::new(),
    ) {
        Some(g) => g,
        None => panic!("the tables do not keep their keys"),
    }
}

#[test]
fn a_few_symbols_are_all_answered_for() {
    let g = overloads(5);
    match resolve_targets(&g, &plain(), "go") {
        Ok(syms) => assert_eq!(syms.len(), 5),
        Err(msg) => panic!("{msg}"),
    }
    let out = refs(&g, &plain(), "go", 10);
    assert_eq!(out.matches("occurrences:\n").count(), 5);
    assert!(out.starts_with("go [function] usr: c:@F@go#1\noccurrences:\ngo [function] usr: c:@F@go#2\n"));
}

#[test]
fn many_symbols_are_listed() {
    let g = overloads(6);
    let mut expected =
        text("ambiguous (6 matches, showing 30 max) — narrow with Class::Member or a USR:\n");
    for i in 1..=6 {
        expected.push_str(&format!("  go [function] (no definition indexed)  usr: c:@F@go#{i}\n"));
    }
    assert_eq!(refs(&g, &plain(), "go", 10), expected);
    assert_eq!(callers(&g, &plain(), "go", 10), expected);
    assert_eq!(callees(&g, &plain(), "go", 10), expected);
    assert_eq!(hierarchy(&g, &plain(), "go", 10), expected);
    assert_eq!(members(&g, &plain(), "go", 10), expected);
    let many = refs(&overloads(40), &plain(), "go", 10);
    assert!(many.starts_with("ambiguous (30 matches, showing 30 max)"));
    assert_eq!(many.lines().count(), 31);
}

#[test]
fn nothing_found_is_said() {
    let g = shapes();
    for q in [Question::Refs, Question::Callers, Question::Callees, Question::Hierarchy, Question::Members] {
        assert_eq!(ask(&g, &plain(), q, "Square", 10), "no symbols match: Square");
    }
    assert_eq!(ask(&g, &plain(), Question::Find, "Square", 10), "no symbols match: Square");
    assert_eq!(ask(&g, &plain(), Question::Outline, "square.h", 10), "no indexed file matches: square.h");
}

// ---- lines --------------------------------------------------------------

#[test]
fn a_cut_list_says_how_many_there_are() {
    let mut out = text("head\n");
    OccRows { total: 3, lines: vec![text("a"), text("b")] }.render(&mut out);
    assert_eq!(out, "head\n  (3 total, showing 2)\n  a\n  b\n");
    let mut out = String::new();
    OccRows { total: 2, lines: vec![text("a"), text("b")] }.render(&mut out);
    assert_eq!(out, "  a\n  b\n");
    let mut out = String::new();
    OccRows { total: 1, lines: vec![text("a"), text("b")] }.render(&mut out);
    assert_eq!(out, "  a\n  b\n");
}

#[test]
fn references_come_by_path_and_line() {
    let g = shapes();
    assert_eq!(
        refs(&g, &plain(), "Shape", 10),
        "Shape [class] usr: c:@S@Shape\noccurrences:\n  /p/circle.cpp:5:23 [ref]\n  /p/shape.h:3:7 [def]\n"
    );
    assert_eq!(
        refs(&g, &plain(), "Shape", 1),
        "Shape [class] usr: c:@S@Shape\noccurrences:\n  (2 total, showing 1)\n  /p/circle.cpp:5:23 [ref]\n"
    );
    assert_eq!(
        refs(&g, &plain(), "Shape", 0),
        "Shape [class] usr: c:@S@Shape\noccurrences:\n  (2 total, showing 0)\n"
    );
}

#[test]
fn a_place_in_two_records_is_listed_once() {
    let mut g = shapes();
    g.records.push(record(4, "shape.h-2", 1));
    g.occurrences.push(occ(20, 4, SHAPE, ROLE_DEFINITION, 3, 7));
    assert_eq!(
        refs(&g, &plain(), "Shape", 10),
        "Shape [class] usr: c:@S@Shape\noccurrences:\n  /p/circle.cpp:5:23 [ref]\n  /p/shape.h:3:7 [def]\n"
    );
}

#[test]
fn a_place_in_two_roles_is_counted_and_listed_twice() {
    let mut g = shapes();
    g.occurrences.push(occ(20, 1, SHAPE, ROLE_REFERENCE, 3, 7));
    let out = refs(&g, &plain(), "Shape", 10);
    assert!(out.contains("  /p/shape.h:3:7 [def]\n  /p/shape.h:3:7 [ref]\n"));
    assert!(!out.contains("total"));
    assert!(!refs(&g, &plain(), "Shape", 3).contains("total"));
    assert!(refs(&g, &plain(), "Shape", 2).contains("  (3 total, showing 2)\n"));
    assert!(refs(&g, &plain(), "Shape", 1).contains("  (3 total, showing 1)\n"));
}

#[test]
fn callers_are_what_an_occurrence_is_inside_of() {
    let g = shapes();
    assert_eq!(
        callers(&g, &plain(), "Shape::area", 10),
        "callers/referencers of area (1) — usr: c:@S@Shape@F@area#\n  \
         main [function] at /p/main.cpp:4 [call,ref,dyn]  usr: c:@F@main#\n"
    );
    assert_eq!(
        callers(&g, &plain(), "main", 10),
        "callers/referencers of main (0) — usr: c:@F@main#\n"
    );
}

#[test]
fn callees_have_calls_first() {
    let g = shapes();
    assert_eq!(
        callees(&g, &plain(), "main", 10),
        "callees/uses inside main (2) — usr: c:@F@main#\n  \
         area [instance-method] at /p/main.cpp:4 [call,ref,dyn]  usr: c:@S@Shape@F@area#\n  \
         Circle [class] at /p/main.cpp:3 [ref]  usr: c:@S@Circle\n"
    );
    assert_eq!(
        callees(&g, &plain(), "main", 1),
        "callees/uses inside main (2) — usr: c:@F@main#\n  (2 total, showing 1)\n  \
         area [instance-method] at /p/main.cpp:4 [call,ref,dyn]  usr: c:@S@Shape@F@area#\n"
    );
}

#[test]
fn callers_and_callees_are_two_sides_of_one_thing() {
    let g = shapes();
    assert!(callers(&g, &plain(), "radius", 10).contains("area [instance-method] at /p/circle.cpp:6 [ref,read]"));
    assert!(callees(&g, &plain(), "Circle::area", 10).contains("radius [field] at /p/circle.cpp:6 [ref,read]"));
}

#[test]
fn a_hierarchy_tells_bases_and_overrides() {
    let g = shapes();
    assert_eq!(
        hierarchy(&g, &plain(), "Circle", 10),
        "Circle [class] usr: c:@S@Circle\nbases (1):\n  Shape [class] usr: c:@S@Shape\n"
    );
    assert_eq!(
        hierarchy(&g, &plain(), "Shape", 10),
        "Shape [class] usr: c:@S@Shape\nderived (1):\n  Circle [class] usr: c:@S@Circle\n"
    );
    assert_eq!(
        hierarchy(&g, &plain(), "Circle::area", 10),
        "area [instance-method] usr: c:@S@Circle@F@area#\noverrides (this overrides) (1):\n  \
         area [instance-method] usr: c:@S@Shape@F@area#\n"
    );
    assert_eq!(
        hierarchy(&g, &plain(), "Shape::area", 10),
        "area [instance-method] usr: c:@S@Shape@F@area#\noverridden-by (1):\n  \
         area [instance-method] usr: c:@S@Circle@F@area#\n"
    );
    assert_eq!(
        hierarchy(&g, &plain(), "Circle", 0),
        "Circle [class] usr: c:@S@Circle\nbases (0):\n  (1 total, showing 0)\n"
    );
}

#[test]
fn a_hierarchy_tells_specializations() {
    let mut g = shapes();
    g.relations.push(rel(3, ROLE_REL_SPECIALIZATIONOF, SHAPE));
    assert_eq!(
        hierarchy(&g, &plain(), "Shape", 10),
        "Shape [class] usr: c:@S@Shape\nderived (1):\n  Circle [class] usr: c:@S@Circle\n\
         specializations (1):\n  Circle [class] usr: c:@S@Circle\n"
    );
}

#[test]
fn members_come_in_the_order_of_their_lines() {
    let g = shapes();
    assert_eq!(
        members(&g, &plain(), "Circle", 10),
        "members of Circle [class] (2) — usr: c:@S@Circle\n  \
         area [instance-method] /p/circle.cpp:6  usr: c:@S@Circle@F@area#\n  \
         radius [field] /p/circle.cpp:8  usr: c:@S@Circle@FI@radius\n"
    );
    assert_eq!(
        members(&g, &plain(), "Shape", 10),
        "members of Shape [class] (1) — usr: c:@S@Shape\n  \
         area [instance-method] (decl only)  usr: c:@S@Shape@F@area#\n"
    );
    assert_eq!(
        members(&g, &plain(), "Circle", 1),
        "members of Circle [class] (1) — usr: c:@S@Circle\n  (2 total, showing 1)\n  \
         radius [field] /p/circle.cpp:8  usr: c:@S@Circle@FI@radius\n"
    );
}

#[test]
fn members_are_told_of_containers_where_there_are_any() {
    let mut g = shapes();
    g.symbols.push(symbol(8, "c:@S@Circle@F@Circle#", "Circle", 22));
    let out = members(&g, &plain(), "Circle", 10);
    assert!(out.starts_with("members of Circle [class]"));
    assert_eq!(out.matches("members of").count(), 1);
    let out = members(&g, &plain(), "area", 10);
    assert_eq!(out.matches("members of").count(), 2);
}

#[test]
fn an_outline_comes_in_the_order_of_its_lines() {
    let g = shapes();
    assert_eq!(
        outline(&g, &plain(), "circle.cpp", 10),
        "outline of /p/circle.cpp (3 symbols):\n  5: Circle [class]  usr: c:@S@Circle\n  \
         6: area [instance-method]  usr: c:@S@Circle@F@area#\n  \
         8: radius [field]  usr: c:@S@Circle@FI@radius\n"
    );
    let sh = Shortener::new(vec![(text("/p/"), text("P:"))]);
    assert_eq!(
        outline(&g, &sh, "circle.cpp", 1),
        "outline of P:circle.cpp (1 symbols):\n  (3 total, showing 1)\n  5: Circle [class]  usr: c:@S@Circle\n"
    );
}

#[test]
fn an_outline_leaves_out_parameters_and_what_nobody_wrote() {
    let mut g = shapes();
    g.symbols.push(symbol(8, "c:param", "radius", 25));
    g.occurrences.push(occ(20, 2, 8, ROLE_DEFINITION, 1, 1));
    g.occurrences.push(occ(21, 2, MAIN, ROLE_DEFINITION | ROLE_IMPLICIT, 1, 1));
    g.occurrences.push(occ(22, 2, RADIUS, ROLE_DECLARATION, 2, 1));
    assert_eq!(
        outline(&g, &plain(), "circle", 10),
        "outline of /p/circle.cpp (3 symbols):\n  2: radius [field]  usr: c:@S@Circle@FI@radius\n  \
         5: Circle [class]  usr: c:@S@Circle\n  6: area [instance-method]  usr: c:@S@Circle@F@area#\n"
    );
}

#[test]
fn an_outline_is_given_of_four_files_at_most() {
    let mut g = shapes();
    for i in 4..9 {
        g.files.push(file(i, &format!("/p/{}.h", "x".repeat(i as usize))));
    }
    let out = outline(&g, &plain(), "/P/", 10);
    let heads: Vec<&str> = out.lines().filter(|l| l.starts_with("outline of")).collect();
    assert_eq!(
        heads,
        vec![
            "outline of /p/xxxx.h (0 symbols):",
            "outline of /p/shape.h (2 symbols):",
            "outline of /p/xxxxx.h (0 symbols):",
            "outline of /p/main.cpp (1 symbols):",
        ]
    );
}

#[test]
fn the_tables_are_counted() {
    assert_eq!(
        stats(&shapes()),
        "units: 2\nrecords: 3\nfiles: 3\nsymbols: 7\noccurrences: 11\nrelations: 9"
    );
    assert_eq!(
        stats(&Graph::new()),
        "units: 0\nrecords: 0\nfiles: 0\nsymbols: 0\noccurrences: 0\nrelations: 0"
    );
}

// ---- tables -------------------------------------------------------------

#[test]
fn tables_that_do_not_keep_their_keys_are_refused() {
    let make = |files: Vec<FileRow>, records: Vec<RecordRow>| {
        Graph::from_tables(files, Vec::new(), records, Vec::new(), Vec::new(), Vec::new(), Vec::new())
            .is_some()
    };
    assert!(make(vec![file(1, "a"), file(2, "b")], Vec::new()));
    assert!(!make(vec![file(2, "a"), file(1, "b")], Vec::new()));
    assert!(!make(vec![file(1, "a"), file(1, "b")], Vec::new()));
    assert!(!make(vec![file(1, "a"), file(2, "a")], Vec::new()));
    assert!(!make(Vec::new(), vec![record(1, "r", 1), record(2, "r", 1)]));
}

#[test]
fn tables_of_another_version_are_not_read() {
    assert_eq!(SCHEMA_VERSION, 1);
    assert!(is_current(Some("1")));
    assert!(is_current(Some("+1")));
    assert!(is_current(Some("01")));
    assert!(!is_current(Some("2")));
    assert!(!is_current(Some("-1")));
    assert!(!is_current(Some(" 1")));
    assert!(!is_current(Some("")));
    assert!(!is_current(Some("one")));
    assert!(!is_current(Some("18446744073709551617")));
    assert!(!is_current(None));
}

#[test]
fn wiping_empties_every_table() {
    let mut g = shapes();
    wipe(&mut g);
    assert_eq!(stats(&g), stats(&Graph::new()));
    assert!(g.links.is_empty());
}

#[test]
fn a_copy_has_the_same_rows() {
    let g = shapes();
    let h = g.copied();
    assert_eq!(stats(&g), stats(&h));
    assert_eq!(find(&g, &plain(), "a", 50), find(&h, &plain(), "a", 50));
}

// ---- what is cut short --------------------------------------------------

fn tables(
    paths: &[&str],
    symbols: Vec<SymbolRow>,
    occurrences: Vec<OccRow>,
    relations: Vec<RelationRow>,
) -> Graph {
    let files: Vec<FileRow> =
        paths.iter().enumerate().map(|(i, p)| FileRow { id: i as i64 + 1, path: text(p) }).collect();
    let records: Vec<RecordRow> =
        paths.iter().enumerate().map(|(i, p)| record(i as i64 + 1, p, i as i64 + 1)).collect();
    match Graph::from_tables(files, symbols, records, Vec::new(), Vec::new(), occurrences, relations) {
        Some(g) => g,
        None => panic!("the tables do not keep their keys"),
    }
}

#[test]
fn a_cut_search_says_how_many_there_are() {
    let g = overloads(3);
    let line = |i: i64| format!("go [function] (no definition indexed)\n  usr: c:@F@go#{i}\n");
    assert_eq!(
        find(&g, &plain(), "go", 2),
        format!("  (3 total, showing 2)\n{}{}", line(1), line(2))
    );
    assert_eq!(find(&g, &plain(), "go", 3), format!("{}{}{}", line(1), line(2), line(3)));
    assert_eq!(find(&g, &plain(), "o", 1), format!("  (3 total, showing 1)\n{}", line(1)));
    assert_eq!(find(&g, &plain(), "go", 0), "  (3 total, showing 0)\n");
    assert_eq!(find(&g, &plain(), "c:@F@go#2", 0), line(2));
}

#[test]
fn a_cut_hierarchy_says_how_many_there_are() {
    let g = tables(
        &["/d.h"],
        vec![symbol(1, "c:@S@D", "D", 7), symbol(2, "c:@S@P", "P", 7), symbol(3, "c:@S@Q", "Q", 7)],
        vec![occ(1, 1, 2, ROLE_REFERENCE, 1, 1), occ(2, 1, 3, ROLE_REFERENCE, 1, 9)],
        vec![rel(1, ROLE_REL_BASEOF, 1), rel(2, ROLE_REL_BASEOF, 1)],
    );
    assert_eq!(
        hierarchy(&g, &plain(), "D", 1),
        "D [class] usr: c:@S@D\nbases (1):\n  (2 total, showing 1)\n  P [class] usr: c:@S@P\n"
    );
    assert_eq!(
        hierarchy(&g, &plain(), "D", 2),
        "D [class] usr: c:@S@D\nbases (2):\n  P [class] usr: c:@S@P\n  Q [class] usr: c:@S@Q\n"
    );
}

#[test]
fn a_cut_list_of_members_says_how_many_there_are() {
    let g = tables(
        &["/c.h"],
        vec![
            symbol(1, "c:@S@C", "C", 7),
            symbol(2, "c:@S@C@FI@x", "x", 14),
            symbol(3, "c:@S@C@FI@y", "y", 14),
        ],
        vec![occ(1, 1, 2, ROLE_DEFINITION, 2, 1), occ(2, 1, 3, ROLE_DEFINITION, 3, 1)],
        vec![rel(1, ROLE_REL_CHILDOF, 1), rel(2, ROLE_REL_CHILDOF, 1)],
    );
    assert_eq!(
        members(&g, &plain(), "C", 1),
        "members of C [class] (1) — usr: c:@S@C\n  (2 total, showing 1)\n  \
         x [field] /c.h:2  usr: c:@S@C@FI@x\n"
    );
    assert!(!members(&g, &plain(), "C", 2).contains("total"));
}

#[test]
fn a_cut_outline_says_how_many_there_are() {
    let g = tables(
        &["/m.h"],
        vec![symbol(1, "c:@F@f#", "f", 12), symbol(2, "c:@F@g#", "g", 12)],
        vec![occ(1, 1, 1, ROLE_DECLARATION, 1, 1), occ(2, 1, 2, ROLE_DECLARATION, 2, 1)],
        Vec::new(),
    );
    assert_eq!(
        outline(&g, &plain(), "m.h", 1),
        "outline of /m.h (1 symbols):\n  (2 total, showing 1)\n  1: f [function]  usr: c:@F@f#\n"
    );
    assert!(!outline(&g, &plain(), "m.h", 2).contains("total"));
}

#[test]
fn a_place_in_two_roles_is_cut_to_one_of_two() {
    let g = tables(
        &["/f.cpp"],
        vec![symbol(1, "c:@F@f#", "f", 12), symbol(2, "c:@F@g#", "g", 12)],
        vec![
            occ(1, 1, 1, ROLE_REFERENCE, 5, 3),
            occ(2, 1, 1, ROLE_REFERENCE | ROLE_CALL, 5, 3),
        ],
        vec![rel(1, ROLE_REL_CONTAINEDBY, 2), rel(2, ROLE_REL_CONTAINEDBY, 2)],
    );
    assert_eq!(
        refs(&g, &plain(), "f", 1),
        "f [function] usr: c:@F@f#\noccurrences:\n  (2 total, showing 1)\n  /f.cpp:5:3 [ref]\n"
    );
    assert_eq!(
        callers(&g, &plain(), "f", 1),
        "callers/referencers of f (1) — usr: c:@F@f#\n  (2 total, showing 1)\n  \
         g [function] at /f.cpp:5 [call,ref]  usr: c:@F@g#\n"
    );
    assert_eq!(
        callers(&g, &plain(), "f", 2),
        "callers/referencers of f (1) — usr: c:@F@f#\n  \
         g [function] at /f.cpp:5 [call,ref]  usr: c:@F@g#\n  \
         g [function] at /f.cpp:5 [ref]  usr: c:@F@g#\n"
    );
    assert_eq!(
        callees(&g, &plain(), "g", 2),
        "callees/uses inside g (1) — usr: c:@F@g#\n  \
         f [function] at /f.cpp:5 [call,ref]  usr: c:@F@f#\n  \
         f [function] at /f.cpp:5 [ref]  usr: c:@F@f#\n"
    );
}

// ---- names as they stand ------------------------------------------------

#[test]
fn only_names_that_macros_add_are_left_out() {
    let g = tables(
        &["/c.h"],
        vec![
            symbol(1, "c:@S@C", "C", 7),
            symbol(2, "c:@S@C@F@Execute#", "Execute", 16),
            symbol(3, "c:@S@C@F@execRun#", "execRun", 16),
            symbol(4, "c:@S@C@F@__priv#", "__priv", 16),
        ],
        vec![
            occ(1, 1, 2, ROLE_DEFINITION, 3, 1),
            occ(2, 1, 3, ROLE_DEFINITION, 4, 1),
            occ(3, 1, 4, ROLE_DEFINITION, 5, 1),
        ],
        vec![rel(1, ROLE_REL_CHILDOF, 1), rel(2, ROLE_REL_CHILDOF, 1), rel(3, ROLE_REL_CHILDOF, 1)],
    );
    assert_eq!(
        members(&g, &plain(), "C", 10),
        "members of C [class] (1) — usr: c:@S@C\n  \
         Execute [instance-method] /c.h:3  usr: c:@S@C@F@Execute#\n"
    );
}

#[test]
fn a_part_of_a_name_is_taken_as_it_stands() {
    let g = tables(
        &["/a_b.h", "/axb.h"],
        vec![symbol(1, "c:@N@a@F@axbc#", "axbc", 12), symbol(2, "c:@N@a_b@F@run#", "run", 12)],
        vec![occ(1, 1, 1, ROLE_DECLARATION, 1, 1), occ(2, 2, 2, ROLE_DECLARATION, 1, 1)],
        Vec::new(),
    );
    let ids = |q: &str| resolve(&g, q, 10).iter().map(|s| s.id).collect::<Vec<_>>();
    assert_eq!(ids("a_b"), Vec::<i64>::new());
    assert_eq!(ids("a%c"), Vec::<i64>::new());
    assert_eq!(ids("XB"), vec![1]);
    assert_eq!(ids("a_b::run"), vec![2]);
    assert_eq!(ids("A_B::run"), vec![2]);
    assert_eq!(ids("a__::run"), Vec::<i64>::new());
    assert_eq!(ids("a_::run"), Vec::<i64>::new());
    assert!(outline(&g, &plain(), "a_b", 10).starts_with("outline of /a_b.h (1 symbols):\n"));
    assert_eq!(outline(&g, &plain(), "a_b", 10).matches("outline of").count(), 1);
    assert_eq!(outline(&g, &plain(), "a%.h", 10), "no indexed file matches: a%.h");
}

#[test]
fn containers_come_in_their_order() {
    let g = tables(
        &[],
        vec![
            symbol(1, "c:@N@A@S@B@F@go#", "go", 16),
            symbol(2, "c:@N@B@S@A@F@go#", "go", 16),
            symbol(3, "c:@N@A@S@BB@F@go#", "go", 16),
            symbol(4, "c:@N@A@B@go#", "go", 16),
        ],
        Vec::new(),
        Vec::new(),
    );
    let ids = |q: &str| resolve(&g, q, 10).iter().map(|s| s.id).collect::<Vec<_>>();
    assert_eq!(ids("A::B::go"), vec![1]);
    assert_eq!(ids("B::A::go"), vec![2]);
    assert_eq!(ids("A::go"), vec![1, 2, 3, 4]);
    assert_eq!(ids("A::A::go"), Vec::<i64>::new());
    assert_eq!(ids("BB::go"), vec![3]);
}

// ---- what texts tell ----------------------------------------------------

#[test]
fn role_texts_tell_roles_apart() {
    for a in 0..512i64 {
        for b in [a, a ^ 1, a ^ 256, a | (1 << 13), 511 - a, -512 + a] {
            assert_eq!(roles_text(a) == roles_text(b), a & 0x1ff == b & 0x1ff, "{a} {b}");
        }
    }
    assert_eq!(roles_text(-1), roles_text(511));
}

#[test]
fn candidates_end_in_their_usrs() {
    let mut g = overloads(6);
    g.symbols[2].name = text("go");
    g.symbols[3].usr = text("c:\n  usr: x");
    let out = match resolve_targets(&g, &plain(), "go") {
        Ok(_) => panic!("few"),
        Err(msg) => msg,
    };
    let lines: Vec<&str> = out.lines().collect();
    assert!(lines[0].starts_with("ambiguous (6 matches"));
    assert!(lines[1].ends_with("  usr: c:@F@go#1"));
    assert!(lines[6].ends_with("  usr: c:@F@go#6"));
}
