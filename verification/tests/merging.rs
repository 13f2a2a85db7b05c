//! Merges, step by step.
use symgraph::db::{Graph, RecordRow, SymbolRow, UnitRow};
use symgraph::ffi::{
    Occurrence, RecordDep, SymInfo, ROLE_CALL, ROLE_DECLARATION, ROLE_DEFINITION, ROLE_REFERENCE,
    ROLE_REL_CALLEDBY, ROLE_REL_CHILDOF,
};
use symgraph::merge::{gc, merge, records_to_read, MergeError, MergeStats, Merger};
use symgraph::plan::{main_files, plan};
use symgraph::query::{callees, callers, find, refs, stats, Shortener};
use symgraph::store::{RecordData, Snapshot, UnitData, UnitStamp};

fn text(s: &str) -> String {
    s.to_string()
}

fn info(name: &str) -> SymInfo {
    SymInfo { usr: format!("c:@F@{name}#"), name: text(name), kind: 12, lang: 3 }
}

fn occ(name: &str, roles: u64, line: u32, inside: &[(u64, &str)]) -> Occurrence {
    Occurrence {
        symbol: info(name),
        roles,
        line,
        col: 5,
        relations: inside.iter().map(|(r, n)| (*r, info(n))).collect(),
    }
}

fn dep(name: &str, path: &str) -> RecordDep {
    RecordDep { name: text(name), file_path: text(path), is_system: false }
}

fn unit(name: &str, main: &str, deps: Vec<RecordDep>) -> UnitData {
    UnitData { name: text(name), main_file: Some(text(main)), module_name: text("M"), deps }
}

fn stamp(name: &str, mtime_ns: i64) -> UnitStamp {
    UnitStamp { name: text(name), mtime_ns }
}

fn lib_h() -> RecordData {
    RecordData { name: text("lib.h-1"), occurrences: vec![occ("work", ROLE_DECLARATION, 2, &[])] }
}

fn a_cpp() -> RecordData {
    RecordData {
        name: text("a.cpp-1"),
        occurrences: vec![
            occ("work", ROLE_DEFINITION, 3, &[]),
            occ("help", ROLE_REFERENCE | ROLE_CALL, 4, &[(ROLE_REL_CALLEDBY, "work")]),
        ],
    }
}

fn b_cpp() -> RecordData {
    RecordData {
        name: text("b.cpp-1"),
        occurrences: vec![
            occ("main", ROLE_DEFINITION, 1, &[]),
            occ("work", ROLE_REFERENCE | ROLE_CALL, 2, &[(ROLE_REL_CALLEDBY, "main")]),
        ],
    }
}

/// Two units that share a header.
fn two_units() -> Snapshot {
    Snapshot {
        listing: vec![stamp("a.o", 100), stamp("b.o", 200)],
        units: vec![
            unit("a.o", "/p/a.cpp", vec![dep("lib.h-1", "/p/lib.h"), dep("a.cpp-1", "/p/a.cpp")]),
            unit("b.o", "/p/b.cpp", vec![dep("lib.h-1", "/p/lib.h"), dep("b.cpp-1", "/p/b.cpp")]),
        ],
        records: vec![lib_h(), a_cpp(), b_cpp()],
        missing_sources: Vec::new(),
    }
}

fn done(r: Result<MergeStats, MergeError>) -> MergeStats {
    match r {
        Ok(s) => s,
        Err(e) => panic!("{}", e.message()),
    }
}

fn merged() -> Graph {
    let mut g = Graph::new();
    done(merge(&mut g, &two_units(), false));
    g
}

fn unit_names(g: &Graph) -> Vec<String> {
    g.units.iter().map(|u| u.name.clone()).collect()
}

fn numbers(s: &MergeStats) -> (usize, usize, usize, usize, usize, u64) {
    (
        s.units_total,
        s.units_processed,
        s.units_removed,
        s.records_ingested,
        s.records_reused,
        s.occurrences_added,
    )
}

#[test]
fn the_outcome_is_summed_up() {
    let s = MergeStats {
        units_total: 161,
        units_processed: 2,
        units_removed: 1,
        records_ingested: 3,
        records_reused: 40,
        occurrences_added: 5000,
        elapsed_ms: 109,
    };
    assert_eq!(
        s.summary(),
        "units 2/161 processed, 1 removed; records 3 new / 40 reused; 5000 occurrences; 109 ms"
    );
    assert_eq!(
        MergeStats::default().summary(),
        "units 0/0 processed, 0 removed; records 0 new / 0 reused; 0 occurrences; 0 ms"
    );
}

#[test]
fn a_first_merge_reads_everything() {
    let mut g = Graph::new();
    let s = done(symgraph::merge(&mut g, &two_units(), false));
    assert_eq!(numbers(&s), (2, 2, 0, 3, 1, 5));
    assert_eq!(s.elapsed_ms, 0);
    assert_eq!(stats(&g), "units: 2\nrecords: 3\nfiles: 3\nsymbols: 3\noccurrences: 5\nrelations: 2");
    assert_eq!(g.links.len(), 4);
    let main: Vec<Option<i64>> = g.units.iter().map(|u| u.main_file_id).collect();
    let path = |id: i64| g.files.iter().find(|f| f.id == id).map(|f| f.path.clone());
    assert_eq!(main.iter().map(|m| m.and_then(path)).collect::<Vec<_>>(), vec![
        Some(text("/p/a.cpp")),
        Some(text("/p/b.cpp"))
    ]);
    assert_eq!(g.units[0].module_name, "M");
    assert_eq!(g.units[1].mtime_ns, 200);
}

#[test]
fn answers_tell_what_was_merged() {
    let g = merged();
    let sh = Shortener::default();
    assert_eq!(
        refs(&g, &sh, "work", 50),
        "work [function] usr: c:@F@work#\noccurrences:\n  /p/a.cpp:3:5 [def]\n  /p/b.cpp:2:5 [call,ref]\n  \
         /p/lib.h:2:5 [decl]\n"
    );
    assert_eq!(
        callers(&g, &sh, "work", 50),
        "callers/referencers of work (1) — usr: c:@F@work#\n  main [function] at /p/b.cpp:2 [call,ref]  \
         usr: c:@F@main#\n"
    );
    assert_eq!(
        callees(&g, &sh, "work", 50),
        "callees/uses inside work (1) — usr: c:@F@work#\n  help [function] at /p/a.cpp:4 [call,ref]  \
         usr: c:@F@help#\n"
    );
    assert_eq!(
        find(&g, &sh, "help", 50),
        "help [function] (no definition indexed)\n  usr: c:@F@help#\n"
    );
}

#[test]
fn a_second_merge_does_nothing() {
    let mut g = merged();
    let before = stats(&g);
    let again = Snapshot {
        listing: two_units().listing,
        units: Vec::new(),
        records: Vec::new(),
        missing_sources: Vec::new(),
    };
    let s = done(merge(&mut g, &again, false));
    assert_eq!(numbers(&s), (2, 0, 0, 0, 0, 0));
    assert_eq!(stats(&g), before);
    assert_eq!(unit_names(&g), vec!["a.o", "b.o"]);
}

#[test]
fn only_what_changed_is_read() {
    let mut g = merged();
    let work = |g: &Graph| g.symbols.iter().find(|s| s.name == "work").map(|s| s.id);
    let id = work(&g);
    let mut b2 = b_cpp();
    b2.name = text("b.cpp-2");
    b2.occurrences.push(occ("help", ROLE_REFERENCE, 9, &[]));
    let snap = Snapshot {
        listing: vec![stamp("a.o", 100), stamp("b.o", 201)],
        units: vec![unit("b.o", "/p/b.cpp", vec![dep("lib.h-1", "/p/lib.h"), dep("b.cpp-2", "/p/b.cpp")])],
        records: vec![b2],
        missing_sources: Vec::new(),
    };
    let s = done(merge(&mut g, &snap, false));
    assert_eq!(numbers(&s), (2, 1, 0, 1, 1, 3));
    let names: Vec<String> = g.records.iter().map(|r| r.name.clone()).collect();
    assert_eq!(names, vec!["lib.h-1", "a.cpp-1", "b.cpp-2"]);
    assert_eq!(work(&g), id);
    assert!(refs(&g, &Shortener::default(), "help", 50).contains("/p/b.cpp:9:5 [ref]"));
}

#[test]
fn a_unit_that_is_not_listed_is_removed() {
    let mut g = merged();
    let snap = Snapshot {
        listing: vec![stamp("a.o", 100)],
        units: Vec::new(),
        records: Vec::new(),
        missing_sources: Vec::new(),
    };
    let s = done(merge(&mut g, &snap, false));
    assert_eq!(numbers(&s), (1, 0, 1, 0, 0, 0));
    assert_eq!(unit_names(&g), vec!["a.o"]);
    assert_eq!(stats(&g), "units: 1\nrecords: 2\nfiles: 3\nsymbols: 2\noccurrences: 3\nrelations: 1");
    assert!(find(&g, &Shortener::default(), "main", 50).contains("no symbols match"));
}

#[test]
fn a_unit_whose_main_file_is_gone_is_removed_and_not_read() {
    let mut g = merged();
    assert_eq!(main_files(&g), vec!["/p/a.cpp", "/p/b.cpp"]);
    let mut snap = two_units();
    snap.listing[1].mtime_ns = 999;
    snap.missing_sources.push(text("/p/b.cpp"));
    snap.missing_sources.push(text("/p/elsewhere.cpp"));
    let p = plan(&g, &snap.listing, &snap.missing_sources);
    assert!(p.read.is_empty());
    assert_eq!(p.remove, vec![2]);
    let s = done(merge(&mut g, &snap, false));
    assert_eq!(numbers(&s), (2, 0, 1, 0, 0, 0));
    assert_eq!(unit_names(&g), vec!["a.o"]);
    let s = done(merge(&mut g, &snap, false));
    assert_eq!(numbers(&s), (2, 1, 0, 0, 0, 0));
    assert_eq!(unit_names(&g), vec!["a.o"]);
    snap.missing_sources.clear();
    let s = done(merge(&mut g, &snap, false));
    assert_eq!(numbers(&s), (2, 1, 0, 1, 1, 2));
    assert_eq!(unit_names(&g), vec!["a.o", "b.o"]);
}

#[test]
fn a_unit_that_comes_without_its_main_file_is_left_out() {
    let mut g = Graph::new();
    let mut snap = two_units();
    snap.missing_sources.push(text("/p/b.cpp"));
    snap.records.truncate(2);
    let names = |v: Vec<RecordDep>| v.into_iter().map(|d| d.name).collect::<Vec<_>>();
    assert_eq!(
        names(records_to_read(&g, &snap.units, &snap.missing_sources)),
        vec!["lib.h-1", "a.cpp-1"]
    );
    let s = done(merge(&mut g, &snap, false));
    assert_eq!(numbers(&s), (2, 2, 0, 2, 0, 3));
    assert_eq!(unit_names(&g), vec!["a.o"]);
    assert_eq!(main_files(&g), vec!["/p/a.cpp"]);
    let mut h = merged();
    done(merge(&mut h, &snap, true));
    assert_eq!(unit_names(&h), vec!["a.o"]);
}

#[test]
fn a_unit_whose_new_main_file_is_missing_is_left_out() {
    let mut g = merged();
    let mut snap = two_units();
    snap.listing[1].mtime_ns = 201;
    snap.units[1].main_file = Some(text("/p/moved.cpp"));
    snap.missing_sources.push(text("/p/moved.cpp"));
    let s = done(merge(&mut g, &snap, false));
    assert_eq!(numbers(&s), (2, 1, 0, 0, 0, 0));
    assert_eq!(unit_names(&g), vec!["a.o"]);
    assert!(find(&g, &Shortener::default(), "main", 50).contains("no symbols match"));
}

#[test]
fn a_full_merge_forgets_the_graph() {
    let mut g = merged();
    g.units.push(UnitRow {
        id: 70,
        name: text("old.o"),
        main_file_id: None,
        module_name: text(""),
        mtime_ns: 1,
    });
    g.records.push(RecordRow { id: 70, name: text("old-1"), file_id: 1 });
    let s = done(merge(&mut g, &two_units(), true));
    assert_eq!(numbers(&s), (2, 2, 0, 3, 1, 5));
    assert_eq!(unit_names(&g), vec!["a.o", "b.o"]);
    assert_eq!(stats(&g), stats(&merged()));
}

#[test]
fn a_unit_that_was_not_read_fails_the_merge() {
    let mut snap = two_units();
    snap.units.remove(1);
    let mut g = Graph::new();
    match merge(&mut g, &snap, false) {
        Err(e) => {
            assert!(matches!(&e, MergeError::Unit { name } if name == "b.o"));
            assert_eq!(e.message(), "unit 처리: b.o");
        }
        Ok(_) => panic!("merged"),
    }
    assert_eq!(stats(&g), stats(&Graph::new()));
}

#[test]
fn a_record_that_was_not_read_fails_the_merge() {
    let mut snap = two_units();
    snap.records.remove(2);
    let mut g = merged();
    let before = stats(&g);
    match merge(&mut g, &snap, true) {
        Err(e) => {
            assert!(matches!(
                &e,
                MergeError::Record { unit, name, file_path }
                    if unit == "b.o" && name == "b.cpp-1" && file_path == "/p/b.cpp"
            ));
            assert_eq!(e.message(), "unit 처리: b.o: record 수집: b.cpp-1 (/p/b.cpp)");
        }
        Ok(_) => panic!("merged"),
    }
    assert_eq!(stats(&g), before);
}

#[test]
fn a_table_without_ids_left_fails_the_merge() {
    let mut g = Graph::new();
    g.records.push(RecordRow { id: i64::MAX, name: text("last"), file_id: 1 });
    match merge(&mut g, &two_units(), false) {
        Err(e) => {
            assert!(matches!(e, MergeError::Full));
            assert_eq!(e.message(), "database or disk is full");
        }
        Ok(_) => panic!("merged"),
    }
    assert_eq!(g.records.len(), 1);
}

#[test]
fn a_record_is_read_once() {
    let g = Graph::new();
    let snap = two_units();
    let names = |v: Vec<RecordDep>| v.into_iter().map(|d| d.name).collect::<Vec<_>>();
    assert_eq!(names(records_to_read(&g, &snap.units, &Vec::new())), vec!["lib.h-1", "a.cpp-1", "b.cpp-1"]);
    let g = merged();
    assert!(records_to_read(&g, &snap.units, &Vec::new()).is_empty());
    let more = vec![unit("c.o", "/p/c.cpp", vec![
        dep("lib.h-1", "/p/lib.h"),
        dep("c.cpp-1", "/p/c.cpp"),
        dep("c.cpp-1", "/p/c.cpp"),
    ])];
    assert_eq!(names(records_to_read(&g, &more, &Vec::new())), vec!["c.cpp-1"]);
}

#[test]
fn a_record_that_comes_twice_is_linked_once() {
    let mut g = Graph::new();
    let snap = Snapshot {
        listing: vec![stamp("a.o", 1)],
        units: vec![unit("a.o", "", vec![dep("lib.h-1", "/p/lib.h"), dep("lib.h-1", "/q/lib.h")])],
        records: vec![lib_h()],
        missing_sources: Vec::new(),
    };
    let s = done(merge(&mut g, &snap, false));
    assert_eq!(numbers(&s), (1, 1, 0, 1, 1, 1));
    assert_eq!(g.links.len(), 1);
    assert_eq!(g.files.len(), 1);
    assert_eq!(g.files[0].path, "/p/lib.h");
    assert_eq!(g.units[0].main_file_id, None);
}

#[test]
fn a_symbol_keeps_what_was_said_of_it_first() {
    let mut other = a_cpp();
    other.occurrences[0].symbol.name = text("Work");
    other.occurrences[0].symbol.kind = 16;
    let mut snap = two_units();
    snap.records[1] = other;
    let mut g = Graph::new();
    done(merge(&mut g, &snap, false));
    let work: Vec<(String, i64)> = g
        .symbols
        .iter()
        .filter(|s| s.usr == "c:@F@work#")
        .map(|s| (s.name.clone(), s.kind))
        .collect();
    assert_eq!(work, vec![(text("work"), 12)]);
}

#[test]
fn symbols_that_are_only_related_stay() {
    let mut snap = two_units();
    snap.records[2].occurrences = vec![occ("work", ROLE_DECLARATION, 2, &[(ROLE_REL_CHILDOF, "Outer")])];
    let mut g = Graph::new();
    done(merge(&mut g, &snap, false));
    let names = |g: &Graph| g.symbols.iter().map(|s| s.name.clone()).collect::<Vec<_>>();
    assert_eq!(names(&g), vec!["work", "help", "Outer"]);
    g.units.retain(|u| u.name != "a.o");
    g.links.retain(|l| l.unit_id != 1);
    gc(&mut g);
    assert_eq!(names(&g), vec!["work", "Outer"]);
    assert_eq!(g.records.iter().map(|r| r.name.clone()).collect::<Vec<_>>(), vec!["lib.h-1", "b.cpp-1"]);
    g.units.clear();
    g.links.clear();
    gc(&mut g);
    assert_eq!(stats(&g), "units: 0\nrecords: 0\nfiles: 3\nsymbols: 0\noccurrences: 0\nrelations: 0");
}

#[test]
fn idle_symbols_are_removed() {
    let mut g = merged();
    g.occurrences.retain(|o| o.record_id != 3);
    g.relations.retain(|r| g.occurrences.iter().any(|o| o.id == r.occ_id));
    let before = g.symbols.len();
    gc(&mut g);
    assert_eq!(g.symbols.len(), before - 1);
    g.links.retain(|l| l.record_id != 3);
    gc(&mut g);
    assert_eq!(g.symbols.len(), before - 1);
    assert_eq!(g.records.len(), 2);

    let mut g = Graph::new();
    g.symbols.push(SymbolRow { id: 1, usr: text("c:@F@f#"), name: text("f"), kind: 12, lang: 1 });
    gc(&mut g);
    assert!(g.symbols.is_empty());
}

#[test]
fn a_second_merge_of_any_graph_does_nothing() {
    let mut g = merged();
    g.links.clear();
    g.records[0].file_id = 99;
    g.occurrences[0].symbol_id = 99;
    let mut snap = two_units();
    snap.listing[0].mtime_ns = 101;
    done(merge(&mut g, &snap, false));
    let first = stats(&g);
    let s = done(merge(&mut g, &snap, false));
    assert_eq!(numbers(&s), (2, 0, 0, 0, 0, 0));
    assert_eq!(stats(&g), first);
}

#[test]
fn what_is_planned_is_enough() {
    let mut g = merged();
    let mut store = two_units();
    store.listing[0].mtime_ns = 101;
    store.listing.push(stamp("c.o", 300));
    store.listing.push(stamp("d.o", 400));
    store.units.push(unit("c.o", "/p/c.cpp", vec![dep("c.cpp-1", "/p/c.cpp"), dep("lib.h-1", "/p/lib.h")]));
    store.units.push(unit("d.o", "/p/d.cpp", vec![dep("d.cpp-1", "/p/d.cpp")]));
    store.records.push(RecordData { name: text("c.cpp-1"), occurrences: vec![occ("help", ROLE_CALL, 3, &[])] });

    let mut missing_sources = Vec::new();
    let todo = plan(&g, &store.listing, &missing_sources);
    let mut units = store.units;
    units.retain(|u| todo.read.iter().any(|s| s.name == u.name));
    assert_eq!(units.iter().map(|u| u.name.clone()).collect::<Vec<_>>(), vec!["a.o", "c.o", "d.o"]);
    missing_sources.push(text("/p/d.cpp"));
    let wanted = records_to_read(&g, &units, &missing_sources);
    assert_eq!(wanted.iter().map(|d| d.name.clone()).collect::<Vec<_>>(), vec!["c.cpp-1"]);
    let mut records = store.records;
    records.retain(|r| wanted.iter().any(|d| d.name == r.name));
    let snap = Snapshot { listing: store.listing, units, records, missing_sources };
    let s = done(merge(&mut g, &snap, false));
    assert_eq!(numbers(&s), (4, 3, 0, 1, 3, 1));
    assert_eq!(unit_names(&g), vec!["b.o", "a.o", "c.o"]);
}

#[test]
fn a_plan_can_be_made_from_units_and_files() {
    let g = merged();
    let mut few = g.copied();
    few.symbols.clear();
    few.records.clear();
    few.links.clear();
    few.occurrences.clear();
    few.relations.clear();
    let mut snap = two_units();
    for mtime in [100, 101] {
        snap.listing[0].mtime_ns = mtime;
        let a = plan(&g, &snap.listing, &Vec::new());
        let b = plan(&few, &snap.listing, &Vec::new());
        let names = |v: &Vec<UnitStamp>| v.iter().map(|s| s.name.clone()).collect::<Vec<_>>();
        assert_eq!(names(&a.read), names(&b.read));
        assert_eq!(a.remove, b.remove);
        assert_eq!(a.read.is_empty(), mtime == 100);
    }
    assert_eq!(main_files(&g), main_files(&few));
    snap.listing[0].mtime_ns = 100;
    snap.units.clear();
    snap.records.clear();
    let s = done(merge(&mut few, &snap, false));
    assert_eq!(numbers(&s), (2, 0, 0, 0, 0, 0));
}

#[test]
fn a_symbol_has_one_row() {
    let mut m = Merger::new(Graph::new());
    let a = m.symbol_id(&info("work"));
    let c = m.symbol_id(&info("help"));
    let mut again = info("work");
    again.name = text("renamed");
    again.kind = 7;
    again.lang = 1;
    let b = m.symbol_id(&again);
    assert_eq!(a, Some(1));
    assert_eq!(b, a);
    assert_ne!(c, a);
    let rows: Vec<(i64, String, i64, i64)> = m
        .graph
        .symbols
        .iter()
        .filter(|s| s.usr == "c:@F@work#")
        .map(|s| (s.id, s.name.clone(), s.kind, s.lang))
        .collect();
    assert_eq!(rows, vec![(1, text("work"), 12, 3)]);

    let mut g = Graph::new();
    g.symbols.push(SymbolRow { id: i64::MAX, usr: text("c:@F@work#"), name: text("work"), kind: 12, lang: 3 });
    let mut m = Merger::new(g);
    assert_eq!(m.symbol_id(&info("work")), Some(i64::MAX));
    assert_eq!(m.symbol_id(&info("new")), None);
    assert_eq!(m.graph.symbols.len(), 1);
}

#[test]
fn a_symbol_keeps_its_id() {
    let mut g = merged();
    let id = |g: &Graph, usr: &str| g.symbols.iter().find(|s| s.usr == usr).map(|s| s.id);
    let work = id(&g, "c:@F@work#");
    let mut c = lib_h();
    c.name = text("c.cpp-1");
    c.occurrences[0].symbol.name = text("renamed");
    c.occurrences.push(occ("other", ROLE_DEFINITION, 7, &[]));
    let mut snap = two_units();
    snap.listing.push(stamp("c.o", 300));
    snap.units.push(unit("c.o", "/p/c.cpp", vec![dep("c.cpp-1", "/p/c.cpp")]));
    snap.records.push(c);
    done(merge(&mut g, &snap, false));
    assert_eq!(id(&g, "c:@F@work#"), work);
    assert_ne!(id(&g, "c:@F@other#"), work);
    assert_eq!(g.symbols.iter().filter(|s| s.usr == "c:@F@work#").count(), 1);
    assert!(g.symbols.iter().all(|s| s.name != "renamed"));
}

#[test]
fn ids_that_were_used_last_are_used_again_for_units_only_after_they_are_free() {
    let mut g = merged();
    let mut snap = two_units();
    snap.listing[0].mtime_ns = 101;
    done(merge(&mut g, &snap, false));
    let ids: Vec<(i64, String)> = g.units.iter().map(|u| (u.id, u.name.clone())).collect();
    assert_eq!(ids, vec![(2, text("b.o")), (3, text("a.o"))]);
    snap.listing[0].mtime_ns = 102;
    done(merge(&mut g, &snap, false));
    let ids: Vec<i64> = g.units.iter().map(|u| u.id).collect();
    assert_eq!(ids, vec![2, 3]);
}

#[test]
fn rows_that_stay_are_not_changed() {
    let mut g = merged();
    let old: Vec<(i64, String)> = g.symbols.iter().map(|s| (s.id, s.usr.clone())).collect();
    let last = g.occurrences.iter().map(|o| o.id).max();
    let mut c = b_cpp();
    c.name = text("c.cpp-1");
    c.occurrences.push(occ("extra", ROLE_DEFINITION, 7, &[]));
    let mut snap = two_units();
    snap.listing.push(stamp("c.o", 300));
    snap.units.push(unit("c.o", "/p/c.cpp", vec![dep("c.cpp-1", "/p/c.cpp")]));
    snap.records.push(c);
    let s = done(merge(&mut g, &snap, false));
    assert_eq!(numbers(&s), (3, 1, 0, 1, 0, 3));
    let new: Vec<(i64, String)> = g.symbols.iter().map(|s| (s.id, s.usr.clone())).collect();
    assert_eq!(new[..old.len()], old[..]);
    assert_eq!(new.len(), old.len() + 1);
    assert!(g.occurrences[5..].iter().all(|o| Some(o.id) > last));
}

#[test]
fn readings_that_are_not_needed_do_not_count() {
    let mut g = merged();
    let mut h = merged();
    let mut snap = two_units();
    snap.listing.push(stamp("c.o", 300));
    snap.units.push(unit("c.o", "/p/c.cpp", vec![dep("lib.h-1", "/p/lib.h")]));
    let mut other = snap;
    let s = done(merge(&mut g, &other, false));
    other.units[0].deps.clear();
    other.records[0].occurrences.clear();
    other.units.push(unit("c.o", "/elsewhere", Vec::new()));
    let t = done(merge(&mut h, &other, false));
    assert_eq!(numbers(&s), numbers(&t));
    assert_eq!(stats(&g), stats(&h));
    assert_eq!(
        refs(&g, &Shortener::default(), "work", 50),
        refs(&h, &Shortener::default(), "work", 50)
    );
}
