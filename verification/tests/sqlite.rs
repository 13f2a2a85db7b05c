//! The answers and the merges are those that SQLite gives on the same tables.
use rusqlite::Connection;

use symgraph::changes::changes;
use symgraph::db::{
    FileRow, Graph, LinkRow, OccRow, RecordRow, RelationRow, SymbolRow, UnitRow,
};
use symgraph::ffi::{Occurrence, RecordDep, SymInfo};
use symgraph::merge::{gc, merge, records_to_read};
use symgraph::plan::{main_files, plan};
use symgraph::query::{
    callees, callers, def_locations, find, hierarchy, kind_name, members, outline, refs, resolve,
    roles_text, stats, test_noise, Shortener,
};
use symgraph::store::{RecordData, Snapshot, UnitData, UnitStamp};

const TABLES: &str = "
CREATE TABLE files(id INTEGER PRIMARY KEY, path TEXT UNIQUE NOT NULL);
CREATE TABLE symbols(id INTEGER PRIMARY KEY, usr TEXT UNIQUE NOT NULL, name TEXT NOT NULL,
  kind INTEGER NOT NULL, lang INTEGER NOT NULL);
CREATE INDEX idx_symbols_name ON symbols(name);
CREATE TABLE records(id INTEGER PRIMARY KEY, name TEXT UNIQUE NOT NULL, file_id INTEGER NOT NULL);
CREATE INDEX idx_records_file ON records(file_id);
CREATE TABLE units(id INTEGER PRIMARY KEY, name TEXT UNIQUE NOT NULL, main_file_id INTEGER,
  module_name TEXT, mtime_ns INTEGER NOT NULL);
CREATE TABLE unit_records(unit_id INTEGER NOT NULL, record_id INTEGER NOT NULL,
  PRIMARY KEY(unit_id, record_id)) WITHOUT ROWID;
CREATE TABLE occurrences(id INTEGER PRIMARY KEY, record_id INTEGER NOT NULL,
  symbol_id INTEGER NOT NULL, roles INTEGER NOT NULL, line INTEGER NOT NULL, col INTEGER NOT NULL);
CREATE INDEX idx_occ_symbol ON occurrences(symbol_id);
CREATE INDEX idx_occ_record ON occurrences(record_id);
CREATE TABLE relations(occ_id INTEGER NOT NULL, roles INTEGER NOT NULL, symbol_id INTEGER NOT NULL);
CREATE INDEX idx_rel_occ ON relations(occ_id);
CREATE INDEX idx_rel_symbol ON relations(symbol_id);
";

const NOISE: &str = "
  AND s.name NOT IN ('StaticClass','StaticPackage','StaticClassFlags','StaticClassCastFlags',
    'StaticAllClassCastFlags','GetPrivateStaticClass','Super','ThisClass',
    'operator new','operator delete','WithinClass')
  AND s.name NOT GLOB 'exec*'
  AND s.name NOT GLOB 'StaticRegisterNatives*'
  AND s.name NOT GLOB 'Z_Construct*'
  AND s.name NOT GLOB '__*'";

/// Numbers that look random, the same in every run.
struct Dice(u64);

impl Dice {
    fn roll(&mut self, n: u64) -> u64 {
        self.0 = self.0.wrapping_mul(6364136223846793005).wrapping_add(1442695040888963407);
        (self.0 >> 33) % n
    }

    fn pick<'a>(&mut self, from: &[&'a str]) -> &'a str {
        from[self.roll(from.len() as u64) as usize]
    }
}

// ---- tables -------------------------------------------------------------

fn save(g: &Graph) -> Connection {
    let c = Connection::open_in_memory().unwrap();
    c.execute_batch(TABLES).unwrap();
    insert(&c, g);
    c
}

fn insert(c: &Connection, g: &Graph) {
    c.execute_batch("BEGIN").unwrap();
    for f in &g.files {
        c.execute("INSERT INTO files VALUES(?1, ?2)", (f.id, &f.path)).unwrap();
    }
    for s in &g.symbols {
        c.execute("INSERT INTO symbols VALUES(?1, ?2, ?3, ?4, ?5)", (s.id, &s.usr, &s.name, s.kind, s.lang))
            .unwrap();
    }
    for r in &g.records {
        c.execute("INSERT INTO records VALUES(?1, ?2, ?3)", (r.id, &r.name, r.file_id)).unwrap();
    }
    for u in &g.units {
        c.execute(
            "INSERT INTO units VALUES(?1, ?2, ?3, ?4, ?5)",
            (u.id, &u.name, u.main_file_id, &u.module_name, u.mtime_ns),
        )
        .unwrap();
    }
    for l in &g.links {
        c.execute("INSERT INTO unit_records VALUES(?1, ?2)", (l.unit_id, l.record_id)).unwrap();
    }
    for o in &g.occurrences {
        c.execute(
            "INSERT INTO occurrences VALUES(?1, ?2, ?3, ?4, ?5, ?6)",
            (o.id, o.record_id, o.symbol_id, o.roles, o.line, o.col),
        )
        .unwrap();
    }
    for r in &g.relations {
        c.execute("INSERT INTO relations VALUES(?1, ?2, ?3)", (r.occ_id, r.roles, r.symbol_id)).unwrap();
    }
    c.execute_batch("COMMIT").unwrap();
}

/// Every table as lines of text, in the order of ids, links and relations sorted.
fn dump_sql(c: &Connection) -> Vec<String> {
    let mut out = Vec::new();
    for sql in [
        "SELECT 'file ' || id || ' ' || path FROM files ORDER BY id",
        "SELECT 'symbol ' || id || ' ' || usr || ' ' || name || ' ' || kind || ' ' || lang FROM symbols ORDER BY id",
        "SELECT 'record ' || id || ' ' || name || ' ' || file_id FROM records ORDER BY id",
        "SELECT 'unit ' || id || ' ' || name || ' ' || ifnull(main_file_id, '-') || ' ' || module_name || ' ' || mtime_ns FROM units ORDER BY id",
        "SELECT 'link ' || unit_id || ' ' || record_id FROM unit_records ORDER BY unit_id, record_id",
        "SELECT 'occ ' || id || ' ' || record_id || ' ' || symbol_id || ' ' || roles || ' ' || line || ' ' || col FROM occurrences ORDER BY id",
        "SELECT 'rel ' || occ_id || ' ' || roles || ' ' || symbol_id FROM relations ORDER BY rowid",
    ] {
        let mut st = c.prepare(sql).unwrap();
        let rows = st.query_map([], |r| r.get::<_, String>(0)).unwrap();
        for row in rows {
            out.push(row.unwrap());
        }
    }
    out
}

fn dump(g: &Graph) -> Vec<String> {
    let mut out = Vec::new();
    for f in &g.files {
        out.push(format!("file {} {}", f.id, f.path));
    }
    for s in &g.symbols {
        out.push(format!("symbol {} {} {} {} {}", s.id, s.usr, s.name, s.kind, s.lang));
    }
    for r in &g.records {
        out.push(format!("record {} {} {}", r.id, r.name, r.file_id));
    }
    for u in &g.units {
        let main = match u.main_file_id {
            Some(id) => format!("{id}"),
            None => "-".to_string(),
        };
        out.push(format!("unit {} {} {} {} {}", u.id, u.name, main, u.module_name, u.mtime_ns));
    }
    let mut links: Vec<(i64, i64)> = g.links.iter().map(|l| (l.unit_id, l.record_id)).collect();
    links.sort();
    for (u, r) in links {
        out.push(format!("link {u} {r}"));
    }
    for o in &g.occurrences {
        out.push(format!("occ {} {} {} {} {} {}", o.id, o.record_id, o.symbol_id, o.roles, o.line, o.col));
    }
    for r in &g.relations {
        out.push(format!("rel {} {} {}", r.occ_id, r.roles, r.symbol_id));
    }
    out
}

const NAMES: [&str; 16] = [
    "Run", "run", "Runner", "Widget", "widget_size", "widgetXsize", "Super", "execStep", "EXECmore",
    "__vtable", "_x", "Z_Construct_UClass", "ZaConstruct", "operator new", "größe", "a",
];

const PATHS: [&str; 8] = [
    "/p/src/a.cpp", "/p/src/b.cpp", "/p/inc/a.h", "/p/inc/A.h", "/e/inc/deep/widget.h", "/p/inc/wi_get.h",
    "rel.h", "/p/src/zß.cpp",
];

fn some_graph(seed: u64) -> Graph {
    let mut d = Dice(seed);
    let mut files = Vec::new();
    for (i, p) in PATHS.iter().enumerate() {
        files.push(FileRow { id: i as i64 * 2 + 1, path: p.to_string() });
    }
    let mut symbols = Vec::new();
    for i in 0..40u64 {
        let name = d.pick(&NAMES).to_string();
        let scope = d.pick(&["@N@ns@", "@S@Widget@", "@S@Outer@S@Widget@", "@"]);
        symbols.push(SymbolRow {
            id: i as i64 + 1,
            usr: format!("c:{scope}F@{name}#{i}"),
            name,
            kind: d.roll(28) as i64,
            lang: d.roll(3) as i64,
        });
    }
    let mut records = Vec::new();
    let mut links = Vec::new();
    let mut units = Vec::new();
    for i in 0..4i64 {
        units.push(UnitRow {
            id: i + 1,
            name: format!("u{i}"),
            main_file_id: if i == 0 { None } else { Some(1) },
            module_name: "m".to_string(),
            mtime_ns: i,
        });
    }
    for i in 0..14i64 {
        records.push(RecordRow { id: i + 1, name: format!("r{i}"), file_id: d.roll(8) as i64 * 2 + 1 });
        if d.roll(4) > 0 {
            links.push(LinkRow { unit_id: d.roll(4) as i64 + 1, record_id: i + 1 });
        }
    }
    let mut occurrences = Vec::new();
    let mut relations = Vec::new();
    for i in 0..160i64 {
        let id = i + 1;
        occurrences.push(OccRow {
            id,
            record_id: d.roll(14) as i64 + 1,
            symbol_id: d.roll(40) as i64 + 1,
            roles: (1 << d.roll(9)) | (1 << d.roll(9)),
            line: d.roll(9) as i64 + 1,
            col: d.roll(3) as i64 + 1,
        });
        for _ in 0..d.roll(4) {
            relations.push(RelationRow {
                occ_id: id,
                roles: (1 << (9 + d.roll(10))) | (1 << (9 + d.roll(10))),
                symbol_id: d.roll(40) as i64 + 1,
            });
        }
    }
    match Graph::from_tables(files, symbols, records, units, links, occurrences, relations) {
        Some(g) => g,
        None => panic!("the tables do not keep their keys"),
    }
}

// ---- questions in SQL ---------------------------------------------------

type SymRow = (i64, String, String, i64);

fn sql_syms(c: &Connection, sql: &str, params: impl rusqlite::Params) -> Vec<SymRow> {
    let mut st = c.prepare(sql).unwrap();
    let rows = st.query_map(params, |r| Ok((r.get(0)?, r.get(1)?, r.get(2)?, r.get(3)?))).unwrap();
    rows.map(|r| r.unwrap()).collect()
}

/// The text as a pattern that stands for nothing else.
fn escaped(text: &str) -> String {
    let mut out = String::new();
    for c in text.chars() {
        if c == '%' || c == '_' || c == '\\' {
            out.push('\\');
        }
        out.push(c);
    }
    out
}

fn sql_resolve(c: &Connection, query: &str, limit: usize) -> Vec<SymRow> {
    if query.starts_with("c:") {
        return sql_syms(c, "SELECT id, usr, name, kind FROM symbols WHERE usr=?1", [query]);
    }
    if query.contains("::") {
        let segs: Vec<&str> = query.split("::").filter(|s| !s.is_empty()).collect();
        if let Some((name, containers)) = segs.split_last() {
            let mut pat = String::from("%");
            for c in containers {
                pat.push_str(&format!("@{}@%", escaped(c)));
            }
            pat.push_str(&format!("@{}%", escaped(name)));
            return sql_syms(
                c,
                "SELECT id, usr, name, kind FROM symbols WHERE name=?1 AND usr LIKE ?2 ESCAPE '\\' LIMIT ?3",
                (name, pat, limit as i64),
            );
        }
    }
    let exact = sql_syms(
        c,
        "SELECT id, usr, name, kind FROM symbols WHERE name=?1 LIMIT ?2",
        (query, limit as i64),
    );
    if !exact.is_empty() {
        return exact;
    }
    sql_syms(
        c,
        "SELECT id, usr, name, kind FROM symbols WHERE name LIKE ?1 ESCAPE '\\'
         ORDER BY length(name) LIMIT ?2",
        (format!("%{}%", escaped(query)), limit as i64),
    )
}

fn sql_places(c: &Connection, sym: i64, limit: usize) -> Vec<String> {
    let mut st = c
        .prepare(
            "SELECT DISTINCT f.path, o.line FROM occurrences o
             JOIN records r ON r.id = o.record_id
             JOIN files f ON f.id = r.file_id
             WHERE o.symbol_id = ?1 AND (o.roles & 2) != 0
             ORDER BY f.path LIMIT ?2",
        )
        .unwrap();
    let rows = st
        .query_map((sym, limit as i64), |r| Ok((r.get::<_, String>(0)?, r.get::<_, i64>(1)?)))
        .unwrap();
    rows.map(|r| {
        let (p, l) = r.unwrap();
        format!("{p}:{l}")
    })
    .collect()
}

fn sql_count(c: &Connection, sql: &str, sym: i64) -> i64 {
    c.query_row(sql, [sym], |r| r.get(0)).unwrap()
}

fn note(total: i64, lines: &[String]) -> String {
    let mut out = String::new();
    if total as usize > lines.len() {
        out.push_str(&format!("  ({} total, showing {})\n", total, lines.len()));
    }
    for l in lines {
        out.push_str(&format!("  {l}\n"));
    }
    out
}

/// The lines of the text, sorted: SQL leaves open in what order rows come that
/// are equal in what they are ordered by.
fn loosely(text: &str) -> Vec<String> {
    let mut v: Vec<String> = text.lines().map(|l| l.to_string()).collect();
    v.sort();
    v
}

fn sql_refs(c: &Connection, sym: &SymRow, limit: usize) -> String {
    let total = sql_count(
        c,
        "SELECT COUNT(*) FROM (SELECT DISTINCT f.path, o.line, o.col, o.roles FROM occurrences o
         JOIN records r ON r.id = o.record_id
         JOIN files f ON f.id = r.file_id WHERE o.symbol_id = ?1)",
        sym.0,
    );
    let mut st = c
        .prepare(
            "SELECT DISTINCT f.path, o.line, o.col, o.roles FROM occurrences o
             JOIN records r ON r.id = o.record_id
             JOIN files f ON f.id = r.file_id
             WHERE o.symbol_id = ?1
             ORDER BY f.path, o.line LIMIT ?2",
        )
        .unwrap();
    let lines: Vec<String> = st
        .query_map((sym.0, limit as i64), |r| {
            Ok(format!(
                "{}:{}:{} [{}]",
                r.get::<_, String>(0)?,
                r.get::<_, i64>(1)?,
                r.get::<_, i64>(2)?,
                roles_text(r.get(3)?)
            ))
        })
        .unwrap()
        .map(|r| r.unwrap())
        .collect();
    format!("{} [{}] usr: {}\noccurrences:\n{}", sym.2, kind_name(sym.3), sym.1, note(total, &lines))
}

fn sql_related(c: &Connection, sym: &SymRow, calling: bool, limit: usize) -> String {
    let joins = if calling {
        "FROM occurrences o
         JOIN relations rel ON rel.occ_id = o.id
         JOIN symbols s ON s.id = rel.symbol_id
         JOIN records r ON r.id = o.record_id
         JOIN files f ON f.id = r.file_id
         WHERE o.symbol_id = ?1 AND (rel.roles & 73728) != 0"
    } else {
        "FROM relations rel
         JOIN occurrences o ON o.id = rel.occ_id
         JOIN symbols s ON s.id = o.symbol_id
         JOIN records r ON r.id = o.record_id
         JOIN files f ON f.id = r.file_id
         WHERE rel.symbol_id = ?1 AND (rel.roles & 73728) != 0"
    };
    let total = sql_count(
        c,
        &format!(
            "SELECT COUNT(*) FROM
             (SELECT DISTINCT s.name, s.kind, s.usr, f.path, o.line, o.roles {joins})"
        ),
        sym.0,
    );
    let mut st = c
        .prepare(&format!(
            "SELECT DISTINCT s.name, s.kind, s.usr, f.path, o.line, o.roles {joins}
             ORDER BY (o.roles & 32) DESC, f.path, o.line LIMIT ?2"
        ))
        .unwrap();
    let lines: Vec<String> = st
        .query_map((sym.0, limit as i64), |r| {
            Ok(format!(
                "{} [{}] at {}:{} [{}]  usr: {}",
                r.get::<_, String>(0)?,
                kind_name(r.get(1)?),
                r.get::<_, String>(3)?,
                r.get::<_, i64>(4)?,
                roles_text(r.get(5)?),
                r.get::<_, String>(2)?,
            ))
        })
        .unwrap()
        .map(|r| r.unwrap())
        .collect();
    let places = sql_count(
        c,
        &format!("SELECT COUNT(DISTINCT s.usr || '@' || f.path || ':' || o.line) {joins}"),
        sym.0,
    );
    let title = if calling { "callers/referencers of" } else { "callees/uses inside" };
    format!("{title} {} ({places}) — usr: {}\n{}", sym.2, sym.1, note(total, &lines))
}

fn sql_names(c: &Connection, sym: i64, bit: i64, occurring: bool) -> Vec<String> {
    let (end, other) = if occurring { ("o", "rel") } else { ("rel", "o") };
    let mut st = c
        .prepare(&format!(
            "SELECT DISTINCT s.name, s.kind, s.usr FROM occurrences o
             JOIN relations rel ON rel.occ_id = o.id
             JOIN symbols s ON s.id = {other}.symbol_id
             WHERE {end}.symbol_id = ?1 AND (rel.roles & ?2) != 0"
        ))
        .unwrap();
    let rows = st
        .query_map((sym, bit), |r| {
            Ok(format!(
                "{} [{}] usr: {}",
                r.get::<_, String>(0)?,
                kind_name(r.get(1)?),
                r.get::<_, String>(2)?
            ))
        })
        .unwrap();
    rows.map(|r| r.unwrap()).collect()
}

fn sql_hierarchy(c: &Connection, sym: &SymRow, limit: usize) -> String {
    let mut out = format!("{} [{}] usr: {}\n", sym.2, kind_name(sym.3), sym.1);
    for (title, items) in [
        ("bases", sql_names(c, sym.0, 1 << 10, false)),
        ("derived", sql_names(c, sym.0, 1 << 10, true)),
        ("overrides (this overrides)", sql_names(c, sym.0, 1 << 11, true)),
        ("overridden-by", sql_names(c, sym.0, 1 << 11, false)),
        ("specializations", sql_names(c, sym.0, 1 << 18, false)),
    ] {
        if items.is_empty() {
            continue;
        }
        let total = items.len();
        let shown = &items[..total.min(limit)];
        out.push_str(&format!("{title} ({}):\n{}", shown.len(), note(total as i64, shown)));
    }
    out
}

fn sql_members(c: &Connection, sym: &SymRow, limit: usize) -> String {
    let mut rows = sql_syms(
        c,
        &format!(
            "SELECT DISTINCT s.id, s.usr, s.name, s.kind FROM occurrences o
             JOIN relations rel ON rel.occ_id = o.id
             JOIN symbols s ON s.id = o.symbol_id
             WHERE rel.symbol_id = ?1 AND (rel.roles & 512) != 0 {NOISE}"
        ),
        [sym.0],
    );
    let total = rows.len();
    rows.truncate(limit);
    let out = format!("members of {} [{}] ({}) — usr: {}\n", sym.2, kind_name(sym.3), rows.len(), sym.1);
    let mut items: Vec<(String, i64, String)> = Vec::new();
    for (id, usr, name, kind) in rows {
        let loc = match sql_places(c, id, 1).into_iter().next() {
            Some(l) => l,
            None => "(decl only)".to_string(),
        };
        let (path, line) = match loc.rsplit_once(':') {
            Some((p, l)) => (p.to_string(), l.parse::<i64>().unwrap_or(0)),
            None => (loc.clone(), 0),
        };
        items.push((format!("{name} [{}] {loc}  usr: {usr}", kind_name(kind)), line, path));
    }
    items.sort_by(|a, b| a.2.cmp(&b.2).then(a.1.cmp(&b.1)));
    let lines: Vec<String> = items.into_iter().map(|i| i.0).collect();
    out + &note(total as i64, &lines)
}

fn sql_outline(c: &Connection, query: &str, limit: usize) -> String {
    let mut st = c
        .prepare("SELECT id, path FROM files WHERE path LIKE ?1 ESCAPE '\\' ORDER BY length(path) LIMIT 4")
        .unwrap();
    let files: Vec<(i64, String)> = st
        .query_map([format!("%{}%", escaped(query))], |r| Ok((r.get(0)?, r.get(1)?)))
        .unwrap()
        .map(|r| r.unwrap())
        .collect();
    if files.is_empty() {
        return format!("no indexed file matches: {query}");
    }
    let mut out = String::new();
    for (id, path) in files {
        let mut st = c
            .prepare(&format!(
                "SELECT DISTINCT s.name, s.kind, s.usr, MIN(o.line) FROM occurrences o
                 JOIN records r ON r.id = o.record_id
                 JOIN symbols s ON s.id = o.symbol_id
                 WHERE r.file_id = ?1 AND (o.roles & 3) != 0 AND (o.roles & 256) = 0
                   AND s.kind != 25 {NOISE}
                 GROUP BY s.id ORDER BY MIN(o.line)"
            ))
            .unwrap();
        let lines: Vec<String> = st
            .query_map([id], |r| {
                Ok(format!(
                    "{}: {} [{}]  usr: {}",
                    r.get::<_, i64>(3)?,
                    r.get::<_, String>(0)?,
                    kind_name(r.get(1)?),
                    r.get::<_, String>(2)?
                ))
            })
            .unwrap()
            .map(|r| r.unwrap())
            .collect();
        let total = lines.len();
        let shown = &lines[..total.min(limit)];
        out.push_str(&format!("outline of {path} ({} symbols):\n{}", shown.len(), note(total as i64, shown)));
    }
    out
}

// ---- answers ------------------------------------------------------------

const QUERIES: [&str; 25] = [
    "Run", "run", "unn", "RUNN", "Widget", "widget_size", "get_si", "_", "%", "", "nothing here", "größe",
    "RÖSS", "W_dget", "Wid%", "Widget::Run", "W_dget::Run", "Outer::Widget::Run", "Outer::Run", "::Run", "ns::run", "::", "a::b::c",
    "c:none", "widget::Run",
];

#[test]
fn symbols_are_those_that_sql_finds() {
    for seed in 1..6 {
        let g = some_graph(seed);
        let c = save(&g);
        for q in QUERIES {
            let all: Vec<SymRow> =
                resolve(&g, q, 1000).into_iter().map(|s| (s.id, s.usr, s.name, s.kind)).collect();
            assert_eq!(all, sql_resolve(&c, q, 1000), "{q}");
            for limit in [0usize, 1, 3] {
                let some = resolve(&g, q, limit);
                assert_eq!(some.len(), sql_resolve(&c, q, limit).len(), "{q} {limit}");
            }
        }
        for s in &g.symbols {
            let found = resolve(&g, &s.usr, 0);
            assert_eq!(found.len(), 1);
            assert_eq!(found[0].id, s.id);
        }
    }
}

#[test]
fn places_of_definition_are_those_that_sql_finds() {
    let sh = Shortener::default();
    for seed in 1..6 {
        let g = some_graph(seed);
        let c = save(&g);
        for s in &g.symbols {
            let a = def_locations(&g, &sh, s.id, 1000);
            let b = sql_places(&c, s.id, 1000);
            let path = |l: &String| l.rsplit_once(':').map(|p| p.0.to_string());
            let pa: Vec<_> = a.iter().map(path).collect();
            let pb: Vec<_> = b.iter().map(path).collect();
            assert_eq!(pa, pb);
            assert_eq!(loosely(&a.join("\n")), loosely(&b.join("\n")));
            assert_eq!(def_locations(&g, &sh, s.id, 2).len(), sql_places(&c, s.id, 2).len());
        }
    }
}

#[test]
fn noise_is_what_sql_leaves_out() {
    let c = Connection::open_in_memory().unwrap();
    c.execute_batch("CREATE TABLE s(name TEXT)").unwrap();
    let mut names: Vec<String> = NAMES.iter().map(|n| n.to_string()).collect();
    for n in [
        "StaticClass", "staticclass", "StaticPackage", "StaticClassFlags", "StaticClassCastFlags",
        "StaticAllClassCastFlags", "GetPrivateStaticClass", "ThisClass", "operator delete", "WithinClass",
        "StaticRegisterNativesFoo", "staticregisternatives", "StaticRegister", "exec", "exe", "z_constructor",
        "Execute", "EXEC", "execute", "Z_Constructor", "Z-Construct", "__", "_", "", "mexec", "Super2", "operator new[]",
    ] {
        names.push(n.to_string());
    }
    for n in &names {
        c.execute("DELETE FROM s", []).unwrap();
        c.execute("INSERT INTO s VALUES(?1)", [n]).unwrap();
        let kept: i64 =
            c.query_row(&format!("SELECT COUNT(*) FROM s WHERE 1 {NOISE}"), [], |r| r.get(0)).unwrap();
        assert_eq!(test_noise(n), kept == 0, "{n}");
    }
}

/// The lines that head lists, and how many lines there are.
fn heads(text: &str) -> (Vec<String>, usize) {
    let head = |l: &&str| !l.starts_with("  ") || l.contains(" total, showing ");
    (text.lines().filter(head).map(|l| l.to_string()).collect(), text.lines().count())
}

fn by_usr(f: impl Fn(&str) -> String, sql: impl Fn(&SymRow) -> String, g: &Graph) {
    for s in &g.symbols {
        let row = (s.id, s.usr.clone(), s.name.clone(), s.kind);
        let a = f(&s.usr);
        let b = sql(&row);
        assert_eq!(loosely(&a), loosely(&b));
    }
}

#[test]
fn references_are_those_that_sql_finds() {
    let sh = Shortener::default();
    for seed in 1..6 {
        let g = some_graph(seed);
        let c = save(&g);
        by_usr(|q| refs(&g, &sh, q, 1000), |s| sql_refs(&c, s, 1000), &g);
        for s in &g.symbols {
            let row = (s.id, s.usr.clone(), s.name.clone(), s.kind);
            for limit in [0usize, 1, 2] {
                let a = refs(&g, &sh, &s.usr, limit);
                let b = sql_refs(&c, &row, limit);
                assert_eq!(heads(&a), heads(&b));
            }
        }
    }
}

#[test]
fn callers_and_callees_are_those_that_sql_finds() {
    let sh = Shortener::default();
    for seed in 1..6 {
        let g = some_graph(seed);
        let c = save(&g);
        by_usr(|q| callers(&g, &sh, q, 1000), |s| sql_related(&c, s, true, 1000), &g);
        by_usr(|q| callees(&g, &sh, q, 1000), |s| sql_related(&c, s, false, 1000), &g);
        for s in &g.symbols {
            let row = (s.id, s.usr.clone(), s.name.clone(), s.kind);
            let a = callers(&g, &sh, &s.usr, 1);
            let b = sql_related(&c, &row, true, 1);
            assert_eq!(heads(&a), heads(&b));
        }
    }
}

#[test]
fn hierarchies_members_and_outlines_are_those_that_sql_finds() {
    let sh = Shortener::default();
    for seed in 1..6 {
        let g = some_graph(seed);
        let c = save(&g);
        by_usr(|q| hierarchy(&g, &sh, q, 1000), |s| sql_hierarchy(&c, s, 1000), &g);
        by_usr(|q| members(&g, &sh, q, 1000), |s| sql_members(&c, s, 1000), &g);
        for s in &g.symbols {
            let row = (s.id, s.usr.clone(), s.name.clone(), s.kind);
            for limit in [0usize, 1, 2] {
                let a = hierarchy(&g, &sh, &s.usr, limit);
                assert_eq!(heads(&a), heads(&sql_hierarchy(&c, &row, limit)));
                let a = members(&g, &sh, &s.usr, limit);
                assert_eq!(heads(&a), heads(&sql_members(&c, &row, limit)));
            }
        }
        for q in ["a.", "a.h", "WIDGET", "wi_get", "inc", "", "%", "no such file", "ß"] {
            assert_eq!(loosely(&outline(&g, &sh, q, 1000)), loosely(&sql_outline(&c, q, 1000)), "{q}");
            assert_eq!(heads(&outline(&g, &sh, q, 2)), heads(&sql_outline(&c, q, 2)), "{q}");
            let files = |t: &str| {
                t.lines().filter(|l| l.starts_with("outline of")).map(|l| l.to_string()).collect::<Vec<_>>()
            };
            assert_eq!(files(&outline(&g, &sh, q, 1000)), files(&sql_outline(&c, q, 1000)), "{q}");
        }
    }
}

#[test]
fn counts_are_those_of_the_tables() {
    let g = some_graph(3);
    let c = save(&g);
    let one = |t: &str| -> i64 {
        c.query_row(&format!("SELECT COUNT(*) FROM {t}"), [], |r| r.get(0)).unwrap()
    };
    assert_eq!(
        stats(&g),
        format!(
            "units: {}\nrecords: {}\nfiles: {}\nsymbols: {}\noccurrences: {}\nrelations: {}",
            one("units"),
            one("records"),
            one("files"),
            one("symbols"),
            one("occurrences"),
            one("relations")
        )
    );
}

#[test]
fn wildcards_stand_for_themselves() {
    let g = some_graph(2);
    let sh = Shortener::default();
    let c = save(&g);
    for q in ["_idget", "W%t", "%%", "__", "a_"] {
        let a: Vec<i64> = resolve(&g, q, 100).iter().map(|s| s.id).collect();
        let b: Vec<i64> = sql_resolve(&c, q, 100).iter().map(|s| s.0).collect();
        assert_eq!(a, b, "{q}");
        assert_eq!(find(&g, &sh, q, 100).contains("no symbols match"), b.is_empty());
        for s in resolve(&g, q, 100) {
            assert!(s.name.to_lowercase().contains(&q.to_lowercase()));
        }
    }
}

// ---- merges -------------------------------------------------------------

fn sql_gc(c: &Connection) {
    c.execute_batch(
        "CREATE TEMP TABLE IF NOT EXISTS dead_records(id INTEGER PRIMARY KEY);
         DELETE FROM dead_records;
         INSERT INTO dead_records SELECT r.id FROM records r
           WHERE NOT EXISTS(SELECT 1 FROM unit_records ur WHERE ur.record_id = r.id);
         DELETE FROM relations WHERE occ_id IN (
           SELECT o.id FROM occurrences o JOIN dead_records d ON o.record_id = d.id);
         DELETE FROM occurrences WHERE record_id IN (SELECT id FROM dead_records);
         DELETE FROM records WHERE id IN (SELECT id FROM dead_records);",
    )
    .unwrap();
    c.execute_batch(
        "DELETE FROM symbols WHERE
           NOT EXISTS(SELECT 1 FROM occurrences o WHERE o.symbol_id = symbols.id)
           AND NOT EXISTS(SELECT 1 FROM relations r WHERE r.symbol_id = symbols.id);",
    )
    .unwrap();
}

#[test]
fn what_is_left_over_is_what_sql_removes() {
    for seed in 1..9 {
        let mut g = some_graph(seed);
        let c = save(&g);
        gc(&mut g);
        sql_gc(&c);
        assert_eq!(dump(&g), dump_sql(&c));
        let before = dump(&g);
        gc(&mut g);
        assert_eq!(dump(&g), before);
    }
}

fn sql_file(c: &Connection, path: &str) -> i64 {
    c.query_row(
        "INSERT INTO files(path) VALUES(?1) ON CONFLICT(path) DO UPDATE SET path=path RETURNING id",
        [path],
        |r| r.get(0),
    )
    .unwrap()
}

fn sql_symbol(c: &Connection, s: &SymInfo) -> i64 {
    c.query_row(
        "INSERT INTO symbols(usr, name, kind, lang) VALUES(?1, ?2, ?3, ?4)
         ON CONFLICT(usr) DO UPDATE SET usr=usr RETURNING id",
        (&s.usr, &s.name, s.kind, s.lang),
        |r| r.get(0),
    )
    .unwrap()
}

fn sql_merge(c: &Connection, snap: &Snapshot) {
    let mut known: Vec<(String, i64, i64, Option<String>)> = Vec::new();
    {
        let mut st = c
            .prepare(
                "SELECT u.name, u.id, u.mtime_ns, f.path FROM units u
                 LEFT JOIN files f ON f.id = u.main_file_id ORDER BY u.id",
            )
            .unwrap();
        let rows = st.query_map([], |r| Ok((r.get(0)?, r.get(1)?, r.get(2)?, r.get(3)?))).unwrap();
        for r in rows {
            known.push(r.unwrap());
        }
    }
    let mut read: Vec<&UnitStamp> = Vec::new();
    for s in &snap.listing {
        match known.iter().find(|k| k.0 == s.name) {
            Some(k) if k.2 == s.mtime_ns => {}
            _ => read.push(s),
        }
    }
    let mut work = 0;
    for (name, id, _, main) in &known {
        let unlisted = !snap.listing.iter().any(|s| s.name == *name);
        let gone = main.as_ref().is_some_and(|p| snap.missing_sources.contains(p));
        if unlisted || gone {
            if gone && !unlisted {
                read.retain(|s| s.name != *name);
            }
            c.execute("DELETE FROM unit_records WHERE unit_id=?1", [id]).unwrap();
            c.execute("DELETE FROM units WHERE id=?1", [id]).unwrap();
            work += 1;
        }
    }
    for s in read {
        work += 1;
        let old: Result<i64, _> = c.query_row("SELECT id FROM units WHERE name=?1", [&s.name], |r| r.get(0));
        if let Ok(id) = old {
            c.execute("DELETE FROM unit_records WHERE unit_id=?1", [id]).unwrap();
            c.execute("DELETE FROM units WHERE id=?1", [id]).unwrap();
        }
        let data = snap.units.iter().find(|u| u.name == s.name).unwrap();
        let main = match &data.main_file {
            Some(p) if !p.is_empty() && snap.missing_sources.contains(p) => continue,
            Some(p) if !p.is_empty() => Some(sql_file(c, p)),
            _ => None,
        };
        c.execute(
            "INSERT INTO units(name, main_file_id, module_name, mtime_ns) VALUES(?1, ?2, ?3, ?4)",
            (&s.name, main, &data.module_name, s.mtime_ns),
        )
        .unwrap();
        let unit = c.last_insert_rowid();
        for dep in &data.deps {
            let have: Result<i64, _> =
                c.query_row("SELECT id FROM records WHERE name=?1", [&dep.name], |r| r.get(0));
            let record = match have {
                Ok(id) => id,
                Err(_) => {
                    let file = sql_file(c, &dep.file_path);
                    c.execute("INSERT INTO records(name, file_id) VALUES(?1, ?2)", (&dep.name, file)).unwrap();
                    let record = c.last_insert_rowid();
                    let data = snap.records.iter().find(|r| r.name == dep.name).unwrap();
                    for o in &data.occurrences {
                        let s = sql_symbol(c, &o.symbol);
                        c.execute(
                            "INSERT INTO occurrences(record_id, symbol_id, roles, line, col)
                             VALUES(?1, ?2, ?3, ?4, ?5)",
                            (record, s, o.roles as i64, o.line, o.col),
                        )
                        .unwrap();
                        let occ = c.last_insert_rowid();
                        for (roles, s) in &o.relations {
                            let s = sql_symbol(c, s);
                            c.execute(
                                "INSERT INTO relations(occ_id, roles, symbol_id) VALUES(?1, ?2, ?3)",
                                (occ, *roles as i64, s),
                            )
                            .unwrap();
                        }
                    }
                    record
                }
            };
            c.execute("INSERT OR IGNORE INTO unit_records(unit_id, record_id) VALUES(?1, ?2)", [unit, record])
                .unwrap();
        }
    }
    if work > 0 {
        sql_gc(c);
    }
}

fn some_symbol(d: &mut Dice) -> SymInfo {
    let name = d.pick(&NAMES).to_string();
    SymInfo { usr: format!("c:@F@{name}#{}", d.roll(3)), name, kind: d.roll(28) as u32, lang: d.roll(3) as u32 }
}

fn some_store(d: &mut Dice) -> Snapshot {
    let mut records = Vec::new();
    for i in 0..8 {
        let mut occurrences = Vec::new();
        for _ in 0..d.roll(6) {
            let mut relations = Vec::new();
            for _ in 0..d.roll(3) {
                relations.push((1 << (9 + d.roll(10)), some_symbol(d)));
            }
            occurrences.push(Occurrence {
                symbol: some_symbol(d),
                roles: d.roll(512),
                line: d.roll(50) as u32,
                col: d.roll(9) as u32,
                relations,
            });
        }
        records.push(RecordData { name: format!("r{i}"), occurrences });
    }
    let mut listing = Vec::new();
    let mut units = Vec::new();
    for i in 0..6 {
        if d.roll(5) == 0 {
            continue;
        }
        let mut deps = Vec::new();
        for _ in 0..d.roll(5) {
            let r = d.roll(8);
            deps.push(RecordDep {
                name: format!("r{r}"),
                file_path: PATHS[r as usize].to_string(),
                is_system: false,
            });
        }
        listing.push(UnitStamp { name: format!("u{i}"), mtime_ns: d.roll(3) as i64 });
        units.push(UnitData {
            name: format!("u{i}"),
            main_file: match d.roll(4) {
                0 => None,
                1 => Some(String::new()),
                n => Some(PATHS[n as usize].to_string()),
            },
            module_name: d.pick(&["", "M"]).to_string(),
            deps,
        });
    }
    let missing_sources = if d.roll(3) == 0 { vec![PATHS[2].to_string()] } else { Vec::new() };
    Snapshot { listing, units, records, missing_sources }
}

#[test]
fn merges_make_the_tables_that_sql_makes() {
    for seed in 1..30 {
        let mut d = Dice(seed);
        let mut g = Graph::new();
        let c = save(&g);
        for _ in 0..6 {
            let snap = some_store(&mut d);
            match merge(&mut g, &snap, false) {
                Ok(_) => {}
                Err(e) => panic!("{}", e.message()),
            }
            sql_merge(&c, &snap);
            assert_eq!(dump(&g), dump_sql(&c), "seed {seed}");
        }
    }
}

// ---- stores in which names stand for contents ---------------------------

/// The record of the number, always the same.
fn fixed_record(i: u64) -> RecordData {
    let mut d = Dice(1000 + i);
    let mut occurrences = Vec::new();
    for line in 0..d.roll(6) {
        let mut relations = Vec::new();
        for _ in 0..d.roll(3) {
            relations.push((1 << (9 + d.roll(10)), some_symbol(&mut d)));
        }
        occurrences.push(Occurrence {
            symbol: some_symbol(&mut d),
            roles: d.roll(512),
            line: line as u32,
            col: d.roll(9) as u32,
            relations,
        });
    }
    RecordData { name: format!("r{i}"), occurrences }
}

/// The unit of the number as it was at a time, always the same.
fn fixed_unit(i: u64, mtime: i64) -> UnitData {
    let mut d = Dice(2000 + 10 * i + mtime as u64);
    let mut deps = Vec::new();
    for _ in 0..d.roll(5) {
        let r = d.roll(8);
        deps.push(RecordDep { name: format!("r{r}"), file_path: PATHS[r as usize].to_string(), is_system: false });
    }
    UnitData {
        name: format!("u{i}"),
        main_file: match d.roll(3) {
            0 => None,
            n => Some(PATHS[n as usize].to_string()),
        },
        module_name: d.pick(&["", "M"]).to_string(),
        deps,
    }
}

fn some_listing(d: &mut Dice) -> Vec<UnitStamp> {
    let mut listing = Vec::new();
    for i in 0..6 {
        if d.roll(4) > 0 {
            listing.push(UnitStamp { name: format!("u{i}"), mtime_ns: d.roll(3) as i64 });
        }
    }
    listing
}

fn number_of(name: &str) -> u64 {
    match name[1..].parse() {
        Ok(n) => n,
        Err(_) => panic!("{name}"),
    }
}

/// Merges the listing, reading nothing but what the plan asks for.
fn merge_listing(g: &mut Graph, listing: Vec<UnitStamp>, missing_sources: Vec<String>) {
    let todo = plan(g, &listing, &missing_sources);
    let units: Vec<UnitData> =
        todo.read.iter().map(|s| fixed_unit(number_of(&s.name), s.mtime_ns)).collect();
    let records: Vec<RecordData> =
        records_to_read(g, &units, &missing_sources).iter().map(|d| fixed_record(number_of(&d.name))).collect();
    let removed = todo.remove.len();
    let snap = Snapshot { listing, units, records, missing_sources };
    match merge(g, &snap, false) {
        Ok(s) => {
            assert_eq!(s.units_removed, removed);
            assert_eq!(s.units_processed, snap.units.len());
            assert_eq!(s.units_total, snap.listing.len());
            assert_eq!(s.records_ingested, snap.records.len());
            let deps: usize = snap
                .units
                .iter()
                .filter(|u| !u.main_file.as_ref().is_some_and(|p| snap.missing_sources.contains(p)))
                .map(|u| u.deps.len())
                .sum();
            assert_eq!(s.records_ingested + s.records_reused, deps);
            let added: usize = snap.records.iter().map(|r| r.occurrences.len()).sum();
            assert_eq!(s.occurrences_added as usize, added);
        }
        Err(e) => panic!("{}", e.message()),
    }
}

fn told(g: &Graph, record: i64) -> Vec<String> {
    let usr = |id: i64| g.symbols.iter().find(|s| s.id == id).map(|s| s.usr.clone());
    let mut out = Vec::new();
    for o in g.occurrences.iter().filter(|o| o.record_id == record) {
        let mut line = format!("{:?} {} {} {}", usr(o.symbol_id), o.roles, o.line, o.col);
        for r in g.relations.iter().filter(|r| r.occ_id == o.id) {
            line.push_str(&format!(" {} {:?}", r.roles, usr(r.symbol_id)));
        }
        out.push(line);
    }
    out
}

fn said(r: &RecordData) -> Vec<String> {
    let mut out = Vec::new();
    for o in &r.occurrences {
        let mut line = format!("{:?} {} {} {}", Some(&o.symbol.usr), o.roles, o.line, o.col);
        for (roles, s) in &o.relations {
            line.push_str(&format!(" {} {:?}", roles, Some(&s.usr)));
        }
        out.push(line);
    }
    out
}

#[test]
fn a_merged_graph_says_what_the_store_says() {
    for seed in 1..20 {
        let mut d = Dice(seed);
        let mut g = Graph::new();
        for _ in 0..5 {
            let listing = some_listing(&mut d);
            let stamps: Vec<(String, i64)> = listing.iter().map(|s| (s.name.clone(), s.mtime_ns)).collect();
            merge_listing(&mut g, listing, Vec::new());
            assert_eq!(g.units.len(), stamps.len());
            for (name, mtime) in &stamps {
                let u = g.units.iter().find(|u| u.name == *name).unwrap();
                let data = fixed_unit(number_of(name), *mtime);
                assert_eq!(u.mtime_ns, *mtime);
                assert_eq!(u.module_name, data.module_name);
                let path = g.files.iter().find(|f| Some(f.id) == u.main_file_id).map(|f| f.path.clone());
                assert_eq!(path, data.main_file);
                let mut made_of: Vec<String> = g
                    .links
                    .iter()
                    .filter(|l| l.unit_id == u.id)
                    .map(|l| g.records.iter().find(|r| r.id == l.record_id).unwrap().name.clone())
                    .collect();
                made_of.sort();
                let mut deps: Vec<String> = data.deps.iter().map(|d| d.name.clone()).collect();
                deps.sort();
                deps.dedup();
                assert_eq!(made_of, deps);
            }
            for r in &g.records {
                assert_eq!(told(&g, r.id), said(&fixed_record(number_of(&r.name))));
                let path = g.files.iter().find(|f| f.id == r.file_id).map(|f| f.path.clone());
                assert_eq!(path, Some(PATHS[number_of(&r.name) as usize].to_string()));
            }
        }
    }
}

/// What the graph says, without ids.
fn contents(g: &Graph) -> Vec<String> {
    let file = |id: i64| g.files.iter().find(|f| f.id == id).map(|f| f.path.clone());
    let mut out = Vec::new();
    for u in &g.units {
        let mut made_of: Vec<String> = g
            .links
            .iter()
            .filter(|l| l.unit_id == u.id)
            .map(|l| g.records.iter().find(|r| r.id == l.record_id).unwrap().name.clone())
            .collect();
        made_of.sort();
        let main = u.main_file_id.and_then(file);
        out.push(format!("unit {} {} {} {:?} {:?}", u.name, u.mtime_ns, u.module_name, main, made_of));
    }
    for r in &g.records {
        out.push(format!("record {} {:?}", r.name, told(g, r.id)));
    }
    for s in &g.symbols {
        out.push(format!("symbol {}", s.usr));
    }
    out.sort();
    out
}

#[test]
fn updates_come_to_what_a_rebuild_makes() {
    for seed in 1..20 {
        let mut d = Dice(seed);
        let mut g = Graph::new();
        for _ in 0..5 {
            let listing = some_listing(&mut d);
            let same = listing.iter().map(|s| UnitStamp { name: s.name.clone(), mtime_ns: s.mtime_ns }).collect();
            merge_listing(&mut g, listing, Vec::new());
            let mut anew = Graph::new();
            merge_listing(&mut anew, same, Vec::new());
            assert_eq!(contents(&g), contents(&anew));
        }
    }
}

#[test]
fn merges_leave_no_loose_ends() {
    for seed in 1..20 {
        let mut d = Dice(seed);
        let mut g = Graph::new();
        for _ in 0..5 {
            let listing = some_listing(&mut d);
            let missing: Vec<String> = main_files(&g).into_iter().filter(|_| d.roll(4) == 0).collect();
            merge_listing(&mut g, listing, missing.clone());
            assert!(main_files(&g).iter().all(|p| !missing.contains(p)));
            for r in &g.records {
                assert!(g.links.iter().any(|l| l.record_id == r.id));
                assert!(g.files.iter().any(|f| f.id == r.file_id));
            }
            for s in &g.symbols {
                assert!(
                    g.occurrences.iter().any(|o| o.symbol_id == s.id)
                        || g.relations.iter().any(|r| r.symbol_id == s.id)
                );
            }
            for o in &g.occurrences {
                assert!(g.records.iter().any(|r| r.id == o.record_id));
                assert!(g.symbols.iter().any(|s| s.id == o.symbol_id));
            }
            for r in &g.relations {
                assert!(g.occurrences.iter().any(|o| o.id == r.occ_id));
                assert!(g.symbols.iter().any(|s| s.id == r.symbol_id));
            }
            for l in &g.links {
                assert!(g.units.iter().any(|u| u.id == l.unit_id));
                assert!(g.records.iter().any(|r| r.id == l.record_id));
            }
        }
    }
}

#[test]
fn changes_bring_stored_tables_to_the_graph() {
    for seed in 1..20 {
        let mut d = Dice(seed);
        let mut g = Graph::new();
        let c = save(&g);
        for _ in 0..5 {
            let before = g.copied();
            merge_listing(&mut g, some_listing(&mut d), Vec::new());
            let ch = changes(&before, &g);
            for id in &ch.occurrences.gone {
                c.execute("DELETE FROM relations WHERE occ_id=?1", [id]).unwrap();
                c.execute("DELETE FROM occurrences WHERE id=?1", [id]).unwrap();
            }
            for id in &ch.records.gone {
                c.execute("DELETE FROM records WHERE id=?1", [id]).unwrap();
            }
            for id in &ch.symbols.gone {
                c.execute("DELETE FROM symbols WHERE id=?1", [id]).unwrap();
            }
            assert!(ch.files.gone.is_empty());
            let row = |r: &RelationRow| (r.occ_id, r.roles, r.symbol_id);
            let staying = before.relations.iter().filter(|r| g.occurrences.iter().any(|o| o.id == r.occ_id));
            let made: Vec<(i64, i64, i64)> = staying.chain(ch.relations.iter()).map(row).collect();
            assert_eq!(made, g.relations.iter().map(row).collect::<Vec<_>>());
            for id in &ch.units.gone {
                c.execute("DELETE FROM unit_records WHERE unit_id=?1", [id]).unwrap();
                c.execute("DELETE FROM units WHERE id=?1", [id]).unwrap();
            }
            let kept = before.units.len() - ch.units.gone.len();
            assert_eq!(kept + ch.units.new.len(), g.units.len());
            let part = Graph {
                files: g.copied().files.split_off(ch.files.new_from),
                symbols: g.copied().symbols.split_off(ch.symbols.new_from),
                records: g.copied().records.split_off(ch.records.new_from),
                units: ch.units.new,
                links: ch.units.links,
                occurrences: g.copied().occurrences.split_off(ch.occurrences.new_from),
                relations: ch.relations,
            };
            insert(&c, &part);
            assert_eq!(dump(&g), dump_sql(&c));
        }
    }
}
