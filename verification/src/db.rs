//! The tables of the symbol graph.
//!
//! The graph is derived data: it can be rebuilt from the index store at any
//! time. What identifies a row across merges:
//! - a unit: its name in the store; its modification time tells whether it changed
//! - a record: its name, which is made from its contents
//! - a symbol: its USR
//! - a file: its path
use vstd::hash_map::StringHashMap;
use vstd::prelude::*;

use crate::rows;
use crate::text::{self, parse_unsigned};

verus! {

/// The version of the tables. Tables of another version are not read: the
/// graph is rebuilt.
pub const SCHEMA_VERSION: i64 = 1;

// ---- rows ---------------------------------------------------------------

pub struct FileRow {
    pub id: i64,
    pub path: String,
}

pub struct SymbolRow {
    pub id: i64,
    pub usr: String,
    pub name: String,
    pub kind: i64,
    pub lang: i64,
}

pub struct RecordRow {
    pub id: i64,
    pub name: String,
    pub file_id: i64,
}

pub struct UnitRow {
    pub id: i64,
    pub name: String,
    pub main_file_id: Option<i64>,
    pub module_name: String,
    pub mtime_ns: i64,
}

/// A unit is made of a record.
#[derive(Clone, Copy, PartialEq, Eq, Structural)]
pub struct LinkRow {
    pub unit_id: i64,
    pub record_id: i64,
}

#[derive(Clone, Copy)]
pub struct OccRow {
    pub id: i64,
    pub record_id: i64,
    pub symbol_id: i64,
    pub roles: i64,
    pub line: i64,
    pub col: i64,
}

#[derive(Clone, Copy)]
pub struct RelationRow {
    pub occ_id: i64,
    pub roles: i64,
    pub symbol_id: i64,
}

pub struct FileV {
    pub id: i64,
    pub path: Seq<char>,
}

pub struct SymbolV {
    pub id: i64,
    pub usr: Seq<char>,
    pub name: Seq<char>,
    pub kind: i64,
    pub lang: i64,
}

pub struct RecordV {
    pub id: i64,
    pub name: Seq<char>,
    pub file_id: i64,
}

pub struct UnitV {
    pub id: i64,
    pub name: Seq<char>,
    pub main_file_id: Option<i64>,
    pub module_name: Seq<char>,
    pub mtime_ns: i64,
}

impl View for FileRow {
    type V = FileV;

    open spec fn view(&self) -> FileV {
        FileV { id: self.id, path: self.path@ }
    }
}

impl View for SymbolRow {
    type V = SymbolV;

    open spec fn view(&self) -> SymbolV {
        SymbolV {
            id: self.id,
            usr: self.usr@,
            name: self.name@,
            kind: self.kind,
            lang: self.lang,
        }
    }
}

impl View for RecordRow {
    type V = RecordV;

    open spec fn view(&self) -> RecordV {
        RecordV { id: self.id, name: self.name@, file_id: self.file_id }
    }
}

impl View for UnitRow {
    type V = UnitV;

    open spec fn view(&self) -> UnitV {
        UnitV {
            id: self.id,
            name: self.name@,
            main_file_id: self.main_file_id,
            module_name: self.module_name@,
            mtime_ns: self.mtime_ns,
        }
    }
}

// ---- keys ---------------------------------------------------------------

/// A row that an id identifies.
pub trait HasId {
    spec fn rid(&self) -> i64;
}

/// A row that a text identifies too.
pub trait HasName {
    spec fn key(&self) -> Seq<char>;
}

impl HasId for FileV {
    open spec fn rid(&self) -> i64 {
        self.id
    }
}

impl HasName for FileV {
    open spec fn key(&self) -> Seq<char> {
        self.path
    }
}

impl HasId for SymbolV {
    open spec fn rid(&self) -> i64 {
        self.id
    }
}

impl HasName for SymbolV {
    open spec fn key(&self) -> Seq<char> {
        self.usr
    }
}

impl HasId for RecordV {
    open spec fn rid(&self) -> i64 {
        self.id
    }
}

impl HasName for RecordV {
    open spec fn key(&self) -> Seq<char> {
        self.name
    }
}

impl HasId for UnitV {
    open spec fn rid(&self) -> i64 {
        self.id
    }
}

impl HasName for UnitV {
    open spec fn key(&self) -> Seq<char> {
        self.name
    }
}

impl HasId for OccRow {
    open spec fn rid(&self) -> i64 {
        self.id
    }
}

/// Whether the ids of `s` go up, so that none comes twice.
pub open spec fn ascending<T: HasId>(s: Seq<T>) -> bool {
    forall|i: int, j: int| 0 <= i < j < s.len() ==> (#[trigger] s[i]).rid() < (#[trigger] s[j]).rid()
}

/// Whether no name comes twice in `s`.
pub open spec fn names_differ<T: HasName>(s: Seq<T>) -> bool {
    forall|i: int, j: int| 0 <= i < j < s.len() ==> (#[trigger] s[i]).key() != (#[trigger] s[j]).key()
}

/// Whether the row `i` of `s` has the id.
pub open spec fn has_id_at<T: HasId>(s: Seq<T>, id: i64, i: int) -> bool {
    0 <= i < s.len() && s[i].rid() == id
}

/// Whether the row `i` of `s` has the name.
pub open spec fn has_name_at<T: HasName>(s: Seq<T>, name: Seq<char>, i: int) -> bool {
    0 <= i < s.len() && s[i].key() == name
}

/// The row of `s` with the id.
pub open spec fn by_id<T: HasId>(s: Seq<T>, id: i64) -> Option<T> {
    if exists|i: int| has_id_at(s, id, i) {
        Some(s[choose|i: int| has_id_at(s, id, i)])
    } else {
        None
    }
}

/// The row of `s` with the name.
pub open spec fn by_name<T: HasName>(s: Seq<T>, name: Seq<char>) -> Option<T> {
    if exists|i: int| has_name_at(s, name, i) {
        Some(s[choose|i: int| has_name_at(s, name, i)])
    } else {
        None
    }
}

pub proof fn lemma_by_id<T: HasId>(s: Seq<T>, i: int)
    requires
        ascending(s),
        0 <= i < s.len(),
    ensures
        by_id(s, s[i].rid()) == Some(s[i]),
{
    let id = s[i].rid();
    assert(has_id_at(s, id, i));
    let j = choose|j: int| has_id_at(s, id, j);
    if j < i {
        assert(s[j].rid() < s[i].rid());
    } else if i < j {
        assert(s[i].rid() < s[j].rid());
    }
}

pub proof fn lemma_by_name<T: HasName>(s: Seq<T>, i: int)
    requires
        names_differ(s),
        0 <= i < s.len(),
    ensures
        by_name(s, s[i].key()) == Some(s[i]),
{
    let name = s[i].key();
    assert(has_name_at(s, name, i));
    let j = choose|j: int| has_name_at(s, name, j);
    if j < i {
        assert(s[j].key() != s[i].key());
    } else if i < j {
        assert(s[i].key() != s[j].key());
    }
}

/// A row with a greater id can be added.
pub proof fn lemma_ascending_push<T: HasId>(s: Seq<T>, x: T)
    requires
        ascending(s),
        s.len() > 0 ==> s.last().rid() < x.rid(),
    ensures
        ascending(s.push(x)),
{
    let t = s.push(x);
    assert forall|i: int, j: int| 0 <= i < j < t.len() implies (#[trigger] t[i]).rid() < (
    #[trigger] t[j]).rid() by {
        if j < s.len() {
            assert(s[i].rid() < s[j].rid());
        } else if i < s.len() - 1 {
            assert(s[i].rid() < s[s.len() - 1].rid());
        }
    }
}

/// A row with a new name can be added.
pub proof fn lemma_names_push<T: HasName>(s: Seq<T>, x: T)
    requires
        names_differ(s),
        by_name(s, x.key()) is None,
    ensures
        names_differ(s.push(x)),
{
    let t = s.push(x);
    assert forall|i: int, j: int| 0 <= i < j < t.len() implies (#[trigger] t[i]).key() != (
    #[trigger] t[j]).key() by {
        if j < s.len() {
            assert(s[i].key() != s[j].key());
        } else {
            assert(!has_name_at(s, x.key(), i));
        }
    }
}

/// Ids still go up where rows are dropped.
pub proof fn lemma_ascending_keep<T: HasId>(s: Seq<T>, p: spec_fn(T) -> bool)
    requires
        ascending(s),
    ensures
        ascending(rows::keep(s, p)),
{
    let r = |a: T, b: T| a.rid() < b.rid();
    assert forall|i: int, j: int| 0 <= i < j < s.len() implies r(#[trigger] s[i], #[trigger] s[j]) by {
        assert(s[i].rid() < s[j].rid());
    }
    rows::lemma_keep_pairs(s, p, r);
    let k = rows::keep(s, p);
    assert forall|i: int, j: int| 0 <= i < j < k.len() implies (#[trigger] k[i]).rid() < (
    #[trigger] k[j]).rid() by {
        assert(r(k[i], k[j]));
    }
}

/// Names still differ where rows are dropped.
pub proof fn lemma_names_keep<T: HasName>(s: Seq<T>, p: spec_fn(T) -> bool)
    requires
        names_differ(s),
    ensures
        names_differ(rows::keep(s, p)),
{
    let r = |a: T, b: T| a.key() != b.key();
    assert forall|i: int, j: int| 0 <= i < j < s.len() implies r(#[trigger] s[i], #[trigger] s[j]) by {
        assert(s[i].key() != s[j].key());
    }
    rows::lemma_keep_pairs(s, p, r);
    let k = rows::keep(s, p);
    assert forall|i: int, j: int| 0 <= i < j < k.len() implies (#[trigger] k[i]).key() != (
    #[trigger] k[j]).key() by {
        assert(r(k[i], k[j]));
    }
}

/// An executable row with an id.
pub trait Keyed {
    type Value: HasId;

    spec fn value(&self) -> Self::Value;

    fn id_of(&self) -> (r: i64)
        ensures
            r == self.value().rid(),
    ;

    fn copied(&self) -> (r: Self) where Self: Sized
        ensures
            r.value() == self.value(),
    ;
}

/// An executable row with an id and a name.
pub trait Named: Keyed where Self::Value: HasName {
    fn name_of(&self) -> (r: &String)
        ensures
            r@ == self.value().key(),
    ;
}

/// The values of rows.
pub open spec fn values<T: Keyed>(v: Seq<T>) -> Seq<T::Value> {
    v.map_values(|r: T| r.value())
}

impl Keyed for FileRow {
    type Value = FileV;

    open spec fn value(&self) -> FileV {
        self@
    }

    fn id_of(&self) -> (r: i64) {
        self.id
    }

    fn copied(&self) -> (r: FileRow) {
        FileRow {
            id: self.id,
            path: self.path.clone(),
        }
    }
}

impl Named for FileRow {
    fn name_of(&self) -> (r: &String) {
        &self.path
    }
}

impl Keyed for SymbolRow {
    type Value = SymbolV;

    open spec fn value(&self) -> SymbolV {
        self@
    }

    fn id_of(&self) -> (r: i64) {
        self.id
    }

    fn copied(&self) -> (r: SymbolRow) {
        SymbolRow {
            id: self.id,
            usr: self.usr.clone(),
            name: self.name.clone(),
            kind: self.kind,
            lang: self.lang,
        }
    }
}

impl Named for SymbolRow {
    fn name_of(&self) -> (r: &String) {
        &self.usr
    }
}

impl Keyed for RecordRow {
    type Value = RecordV;

    open spec fn value(&self) -> RecordV {
        self@
    }

    fn id_of(&self) -> (r: i64) {
        self.id
    }

    fn copied(&self) -> (r: RecordRow) {
        RecordRow {
            id: self.id,
            name: self.name.clone(),
            file_id: self.file_id,
        }
    }
}

impl Named for RecordRow {
    fn name_of(&self) -> (r: &String) {
        &self.name
    }
}

impl Keyed for UnitRow {
    type Value = UnitV;

    open spec fn value(&self) -> UnitV {
        self@
    }

    fn id_of(&self) -> (r: i64) {
        self.id
    }

    fn copied(&self) -> (r: UnitRow) {
        UnitRow {
            id: self.id,
            name: self.name.clone(),
            main_file_id: self.main_file_id,
            module_name: self.module_name.clone(),
            mtime_ns: self.mtime_ns,
        }
    }
}

impl Named for UnitRow {
    fn name_of(&self) -> (r: &String) {
        &self.name
    }
}

impl Keyed for OccRow {
    type Value = OccRow;

    open spec fn value(&self) -> OccRow {
        *self
    }

    fn id_of(&self) -> (r: i64) {
        self.id
    }

    fn copied(&self) -> (r: OccRow) {
        *self
    }
}

/// The place of the row with the id, found by halving.
pub fn find_id<T: Keyed>(v: &Vec<T>, id: i64) -> (r: Option<usize>)
    requires
        ascending(values(v@)),
    ensures
        match r {
            Some(i) => i < v@.len() && by_id(values(v@), id) == Some(v@[i as int].value())
                && v@[i as int].value().rid() == id,
            None => by_id(values(v@), id) is None,
        },
{
    let mut lo: usize = 0;
    let mut hi: usize = v.len();
    while lo < hi
        invariant
            ascending(values(v@)),
            lo <= hi <= v.len(),
            forall|k: int| 0 <= k < lo ==> values(v@)[k].rid() < id,
            forall|k: int| hi <= k < v.len() ==> values(v@)[k].rid() > id,
        decreases hi - lo,
    {
        let mid = lo + (hi - lo) / 2;
        let got = v[mid].id_of();
        assert(values(v@)[mid as int].rid() == got);
        if got == id {
            proof {
                lemma_by_id(values(v@), mid as int);
            }
            return Some(mid);
        }
        if got < id {
            assert forall|k: int| 0 <= k < mid + 1 implies values(v@)[k].rid() < id by {
                if k < mid {
                    assert(values(v@)[k].rid() < values(v@)[mid as int].rid());
                }
            }
            lo = mid + 1;
        } else {
            assert forall|k: int| mid <= k < v.len() implies values(v@)[k].rid() > id by {
                if k > mid {
                    assert(values(v@)[mid as int].rid() < values(v@)[k].rid());
                }
            }
            hi = mid;
        }
    }
    assert forall|k: int| !has_id_at(values(v@), id, k) by {
        if 0 <= k < v.len() {
            if k < lo {
                assert(values(v@)[k].rid() < id);
            } else {
                assert(values(v@)[k].rid() > id);
            }
        }
    }
    None
}

/// A copy of rows.
pub fn copy_rows<T: Keyed>(v: &Vec<T>) -> (r: Vec<T>)
    ensures
        values(r@) == values(v@),
{
    let mut out: Vec<T> = Vec::new();
    let mut i: usize = 0;
    while i < v.len()
        invariant
            i <= v.len(),
            out.len() == i,
            forall|k: int| 0 <= k < i ==> (#[trigger] out@[k]).value() == v@[k].value(),
        decreases v.len() - i,
    {
        out.push(v[i].copied());
        i = i + 1;
    }
    assert(values(out@) =~= values(v@));
    out
}

/// A copy of rows without text.
pub fn copy_plain<T: Copy>(v: &Vec<T>) -> (r: Vec<T>)
    ensures
        r@ == v@,
{
    let mut out: Vec<T> = Vec::new();
    let mut i: usize = 0;
    while i < v.len()
        invariant
            i <= v.len(),
            out@ == v@.take(i as int),
        decreases v.len() - i,
    {
        out.push(v[i]);
        assert(out@ =~= v@.take(i + 1));
        i = i + 1;
    }
    assert(out@ =~= v@);
    out
}

/// Whether `m` leads from the name of each row of `s` to its id, and from no
/// other name anywhere.
pub open spec fn indexes<T: HasId + HasName>(m: Map<Seq<char>, i64>, s: Seq<T>) -> bool {
    &&& forall|i: int|
        0 <= i < s.len() ==> m.contains_key((#[trigger] s[i]).key()) && m[s[i].key()]
            == s[i].rid()
    &&& forall|name: Seq<char>|
        #[trigger] m.contains_key(name) ==> exists|i: int| has_name_at(s, name, i)
}

pub proof fn lemma_indexes<T: HasId + HasName>(
    m: Map<Seq<char>, i64>,
    s: Seq<T>,
    name: Seq<char>,
)
    requires
        indexes(m, s),
        names_differ(s),
    ensures
        m.contains_key(name) <==> by_name(s, name) is Some,
        m.contains_key(name) ==> m[name] == by_name(s, name).unwrap().rid(),
{
    if exists|i: int| has_name_at(s, name, i) {
        let i = choose|i: int| has_name_at(s, name, i);
        assert(s[i].key() == name);
        lemma_by_name(s, i);
    }
}

/// Adding a row under a new name.
pub proof fn lemma_indexes_push<T: HasId + HasName>(m: Map<Seq<char>, i64>, s: Seq<T>, x: T)
    requires
        indexes(m, s),
        !m.contains_key(x.key()),
    ensures
        indexes(m.insert(x.key(), x.rid()), s.push(x)),
{
    let m2 = m.insert(x.key(), x.rid());
    let s2 = s.push(x);
    assert forall|i: int| 0 <= i < s2.len() implies m2.contains_key((#[trigger] s2[i]).key())
        && m2[s2[i].key()] == s2[i].rid() by {
        if i < s.len() {
            assert(s2[i] == s[i]);
        }
    }
    assert forall|name: Seq<char>| #[trigger] m2.contains_key(name) implies exists|i: int|
        has_name_at(s2, name, i) by {
        if name == x.key() {
            assert(has_name_at(s2, name, s.len() as int));
        } else {
            assert(m.contains_key(name));
            let i = choose|i: int| has_name_at(s, name, i);
            assert(has_name_at(s2, name, i));
        }
    }
}

/// From names to ids, where no name comes twice.
pub fn index_rows<T: Named>(v: &Vec<T>) -> (r: Option<StringHashMap<i64>>) where T::Value: HasName
    ensures
        r is Some <==> names_differ(values(v@)),
        r is Some ==> indexes(r.unwrap()@, values(v@)),
{
    let mut m: StringHashMap<i64> = StringHashMap::new();
    let ghost all = values(v@);
    let mut i: usize = 0;
    assert(indexes(m@, all.take(0)));
    while i < v.len()
        invariant
            all == values(v@),
            i <= v.len(),
            indexes(m@, all.take(i as int)),
            names_differ(all.take(i as int)),
        decreases v.len() - i,
    {
        let name = v[i].name_of();
        let id = v[i].id_of();
        let ghost x = all[i as int];
        let ghost part = all.take(i as int);
        assert(all.take(i + 1) =~= part.push(x));
        if m.contains_key(name.as_str()) {
            proof {
                let k = choose|k: int| has_name_at(part, x.key(), k);
                assert(all[k].key() == all[i as int].key());
            }
            return None;
        }
        proof {
            lemma_indexes_push(m@, part, x);
            assert forall|a: int, b: int| 0 <= a < b < all.take(i + 1).len() implies (
            #[trigger] all.take(i + 1)[a]).key() != (#[trigger] all.take(i + 1)[b]).key() by {
                if b < i {
                    assert(part[a].key() != part[b].key());
                } else {
                    assert(part[a] == all[a]);
                    assert(m@.contains_key(part[a].key()));
                }
            }
        }
        m.insert(name.clone(), id);
        i = i + 1;
    }
    assert(all.take(i as int) =~= all);
    Some(m)
}

fn ids_ascend<T: Keyed>(v: &Vec<T>) -> (r: bool)
    ensures
        r == ascending(values(v@)),
{
    let ghost all = values(v@);
    let mut i: usize = 1;
    while i < v.len()
        invariant
            all == values(v@),
            1 <= i,
            forall|a: int, b: int|
                0 <= a < b < i && b < v.len() ==> (#[trigger] all[a]).rid() < (
                #[trigger] all[b]).rid(),
        decreases v.len() - i,
    {
        let p = v[i - 1].id_of();
        let q = v[i].id_of();
        assert(all[i - 1].rid() == p);
        assert(all[i as int].rid() == q);
        if p >= q {
            return false;
        }
        assert forall|a: int, b: int| 0 <= a < b < i + 1 && b < v.len() implies (
        #[trigger] all[a]).rid() < (#[trigger] all[b]).rid() by {
            if b == i && a < i - 1 {
                assert(all[a].rid() < all[i - 1].rid());
            }
        }
        i = i + 1;
    }
    true
}

// ---- the graph ----------------------------------------------------------

/// The tables.
pub struct Graph {
    pub files: Vec<FileRow>,
    pub symbols: Vec<SymbolRow>,
    pub records: Vec<RecordRow>,
    pub units: Vec<UnitRow>,
    pub links: Vec<LinkRow>,
    pub occurrences: Vec<OccRow>,
    pub relations: Vec<RelationRow>,
}

#[verifier::ext_equal]
pub struct GraphV {
    pub files: Seq<FileV>,
    pub symbols: Seq<SymbolV>,
    pub records: Seq<RecordV>,
    pub units: Seq<UnitV>,
    pub links: Seq<LinkRow>,
    pub occurrences: Seq<OccRow>,
    pub relations: Seq<RelationRow>,
}

impl View for Graph {
    type V = GraphV;

    open spec fn view(&self) -> GraphV {
        GraphV {
            files: values(self.files@),
            symbols: values(self.symbols@),
            records: values(self.records@),
            units: values(self.units@),
            links: self.links@,
            occurrences: self.occurrences@,
            relations: self.relations@,
        }
    }
}

impl GraphV {
    /// The graph without rows.
    pub open spec fn empty() -> GraphV {
        GraphV {
            files: Seq::empty(),
            symbols: Seq::empty(),
            records: Seq::empty(),
            units: Seq::empty(),
            links: Seq::empty(),
            occurrences: Seq::empty(),
            relations: Seq::empty(),
        }
    }

    /// What the keys of the tables promise: ids go up, and no path, USR, record
    /// name or unit name comes twice.
    pub open spec fn keyed(self) -> bool {
        &&& ascending(self.files)
        &&& ascending(self.symbols)
        &&& ascending(self.records)
        &&& ascending(self.units)
        &&& ascending(self.occurrences)
        &&& names_differ(self.files)
        &&& names_differ(self.symbols)
        &&& names_differ(self.records)
        &&& names_differ(self.units)
    }
}

impl Graph {
    /// Whether the tables keep their keys.
    pub open spec fn wf(&self) -> bool {
        self@.keyed()
    }

    /// The graph without rows.
    pub fn new() -> (r: Graph)
        ensures
            r@ == GraphV::empty(),
            r.wf(),
    {
        let r = Graph {
            files: Vec::new(),
            symbols: Vec::new(),
            records: Vec::new(),
            units: Vec::new(),
            links: Vec::new(),
            occurrences: Vec::new(),
            relations: Vec::new(),
        };
        assert(r@ =~= GraphV::empty());
        r
    }

    /// The graph with the given tables, where they keep their keys.
    pub fn from_tables(
        files: Vec<FileRow>,
        symbols: Vec<SymbolRow>,
        records: Vec<RecordRow>,
        units: Vec<UnitRow>,
        links: Vec<LinkRow>,
        occurrences: Vec<OccRow>,
        relations: Vec<RelationRow>,
    ) -> (r: Option<Graph>)
        ensures
            ({
                let tables = GraphV {
                    files: values(files@),
                    symbols: values(symbols@),
                    records: values(records@),
                    units: values(units@),
                    links: links@,
                    occurrences: occurrences@,
                    relations: relations@,
                };
                match r {
                    Some(g) => g@ == tables && g.wf(),
                    None => !tables.keyed(),
                }
            }),
    {
        assert(values(occurrences@) =~= occurrences@);
        let good = ids_ascend(&files) && ids_ascend(&symbols) && ids_ascend(&records)
            && ids_ascend(&units) && ids_ascend(&occurrences) && index_rows(&files).is_some()
            && index_rows(&symbols).is_some() && index_rows(&records).is_some() && index_rows(
            &units,
        ).is_some();
        if good {
            Some(Graph { files, symbols, records, units, links, occurrences, relations })
        } else {
            None
        }
    }

    /// A copy of the graph.
    pub fn copied(&self) -> (r: Graph)
        ensures
            r@ == self@,
    {
        Graph {
            files: copy_rows(&self.files),
            symbols: copy_rows(&self.symbols),
            records: copy_rows(&self.records),
            units: copy_rows(&self.units),
            links: copy_plain(&self.links),
            occurrences: copy_plain(&self.occurrences),
            relations: copy_plain(&self.relations),
        }
    }
}

/// Empties every table.
pub fn wipe(graph: &mut Graph)
    ensures
        final(graph)@ == GraphV::empty(),
        final(graph).wf(),
{
    *graph = Graph::new();
}

/// Whether tables that say `version` of themselves can be read. Tables that say
/// nothing, or nothing that is a number, cannot.
pub open spec fn version_is_current(version: Option<Seq<char>>) -> bool {
    match version {
        Some(v) => text::signed_number(v) == Some(SCHEMA_VERSION as int),
        None => false,
    }
}

/// Whether tables that say `version` of themselves can be read.
pub fn is_current(version: Option<&str>) -> (r: bool)
    ensures
        r == version_is_current(
            match version {
                Some(v) => Some(v@),
                None => None,
            },
        ),
{
    match version {
        Some(v) => {
            proof {
                if v@.len() > 0 && v@[0] == '-' {
                    assert(text::unsigned_number(v@) is None) by {
                        assert(!text::is_digit(v@[0]));
                    }
                }
            }
            parse_unsigned(v) == Some(SCHEMA_VERSION as usize)
        },
        None => false,
    }
}

} // verus!
