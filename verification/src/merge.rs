//! Merging an index store into the graph.
//!
//! A merge does no more than the store's changes ask for:
//! - a unit whose modification time is that of the graph is not opened;
//! - a record whose name the graph has is not read, since the name is made from
//!   the contents;
//! - a unit that the store does not list, or whose main file is missing, has no
//!   place in the graph;
//! - what no unit is made of any more is removed, and so are symbols that are not
//!   used;
//! - a merge that fails leaves the graph as it was.
use vstd::hash_map::{HashMapWithView, StringHashMap};
use vstd::prelude::*;

use crate::db::{
    self, find_id, index_rows, FileRow, FileV, Graph, GraphV, HasId, HasName, Keyed, LinkRow,
    Named, OccRow, RecordRow, RecordV, RelationRow, SymbolRow, SymbolV, UnitRow, UnitV,
};
use crate::ffi::{Occurrence, OccurrenceV, RecordDep, RecordDepV, SymInfo, SymInfoV};
use crate::plan;
use crate::presence;
use crate::rows;
use crate::store::{
    self, find_reading, index_readings, RecordData, RecordDataV, Snapshot, SnapshotV, StampV,
    UnitData, UnitDataV, UnitStamp,
};
use crate::text::{self, push_nat};

verus! {

// ---- the outcome --------------------------------------------------------

/// What a merge did.
#[derive(Debug, Clone, Copy)]
pub struct MergeStats {
    pub units_total: usize,
    pub units_processed: usize,
    pub units_removed: usize,
    pub records_ingested: usize,
    pub records_reused: usize,
    pub occurrences_added: u64,
    pub elapsed_ms: u128,
}

impl Default for MergeStats {
    fn default() -> (r: MergeStats)
        ensures
            r == no_stats(),
    {
        MergeStats {
            units_total: 0,
            units_processed: 0,
            units_removed: 0,
            records_ingested: 0,
            records_reused: 0,
            occurrences_added: 0,
            elapsed_ms: 0,
        }
    }
}

/// The outcome of a merge that did nothing.
pub open spec fn no_stats() -> MergeStats {
    MergeStats {
        units_total: 0,
        units_processed: 0,
        units_removed: 0,
        records_ingested: 0,
        records_reused: 0,
        occurrences_added: 0,
        elapsed_ms: 0,
    }
}

/// What a merge did, as text.
pub open spec fn stats_text(st: MergeStats) -> Seq<char> {
    "units "@ + text::dec_nat(st.units_processed as nat) + "/"@ + text::dec_nat(
        st.units_total as nat,
    ) + " processed, "@ + text::dec_nat(st.units_removed as nat) + " removed; records "@
        + text::dec_nat(st.records_ingested as nat) + " new / "@ + text::dec_nat(
        st.records_reused as nat,
    ) + " reused; "@ + text::dec_nat(st.occurrences_added as nat) + " occurrences; "@
        + text::dec_nat(st.elapsed_ms as nat) + " ms"@
}

impl MergeStats {
    /// What a merge did, as text.
    pub fn summary(&self) -> (r: String)
        ensures
            r@ == stats_text(*self),
    {
        let mut out = "units ".to_owned();
        push_nat(&mut out, self.units_processed as u128);
        out.append("/");
        push_nat(&mut out, self.units_total as u128);
        out.append(" processed, ");
        push_nat(&mut out, self.units_removed as u128);
        out.append(" removed; records ");
        push_nat(&mut out, self.records_ingested as u128);
        out.append(" new / ");
        push_nat(&mut out, self.records_reused as u128);
        out.append(" reused; ");
        push_nat(&mut out, self.occurrences_added as u128);
        out.append(" occurrences; ");
        push_nat(&mut out, self.elapsed_ms);
        out.append(" ms");
        out
    }
}

/// Why a merge failed.
pub enum MergeError {
    /// The unit could not be read from the store.
    Unit { name: String },
    /// The record, which the unit is made of, could not be read from the store.
    Record { unit: String, name: String, file_path: String },
    /// The ids of a table, or the numbers of the outcome, are used up.
    Full,
}

pub enum MergeErrorV {
    Unit { name: Seq<char> },
    Record { unit: Seq<char>, name: Seq<char>, file_path: Seq<char> },
    Full,
}

impl View for MergeError {
    type V = MergeErrorV;

    open spec fn view(&self) -> MergeErrorV {
        match self {
            MergeError::Unit { name } => MergeErrorV::Unit { name: name@ },
            MergeError::Record { unit, name, file_path } => MergeErrorV::Record {
                unit: unit@,
                name: name@,
                file_path: file_path@,
            },
            MergeError::Full => MergeErrorV::Full,
        }
    }
}

/// What is said of a merge that failed: at which unit and at which record.
pub open spec fn error_text(e: MergeErrorV) -> Seq<char> {
    match e {
        MergeErrorV::Unit { name } => "unit 처리: "@ + name,
        MergeErrorV::Record { unit, name, file_path } => "unit 처리: "@ + unit + ": record 수집: "@
            + name + " ("@ + file_path + ")"@,
        MergeErrorV::Full => "database or disk is full"@,
    }
}

impl MergeError {
    /// What is said of a merge that failed.
    pub fn message(&self) -> (r: String)
        ensures
            r@ == error_text(self@),
    {
        match self {
            MergeError::Unit { name } => {
                let mut out = "unit 처리: ".to_owned();
                out.append(name.as_str());
                out
            },
            MergeError::Record { unit, name, file_path } => {
                let mut out = "unit 처리: ".to_owned();
                out.append(unit.as_str());
                out.append(": record 수집: ");
                out.append(name.as_str());
                out.append(" (");
                out.append(file_path.as_str());
                out.append(")");
                out
            },
            MergeError::Full => "database or disk is full".to_owned(),
        }
    }
}

// ---- adding rows --------------------------------------------------------

/// The id of the next row of a table: one more than the last. There is none
/// once the greatest id is in use.
pub open spec fn next_id<T: HasId>(s: Seq<T>) -> Option<i64> {
    if s.len() == 0 {
        Some(1)
    } else if s.last().rid() < i64::MAX {
        Some((s.last().rid() + 1) as i64)
    } else {
        None
    }
}

/// The graph with the file, and the id of the file.
pub open spec fn with_file(g: GraphV, path: Seq<char>) -> Option<(GraphV, i64)> {
    match db::by_name(g.files, path) {
        Some(f) => Some((g, f.id)),
        None => match next_id(g.files) {
            Some(id) => Some((GraphV { files: g.files.push(FileV { id, path }), ..g }, id)),
            None => None,
        },
    }
}

/// The graph with the symbol, and the id of the symbol. Of a symbol that the
/// graph has, it keeps what it says.
pub open spec fn with_symbol(g: GraphV, s: SymInfoV) -> Option<(GraphV, i64)> {
    match db::by_name(g.symbols, s.usr) {
        Some(row) => Some((g, row.id)),
        None => match next_id(g.symbols) {
            Some(id) => Some(
                (
                    GraphV {
                        symbols: g.symbols.push(
                            SymbolV {
                                id,
                                usr: s.usr,
                                name: s.name,
                                kind: s.kind as i64,
                                lang: s.lang as i64,
                            },
                        ),
                        ..g
                    },
                    id,
                ),
            ),
            None => None,
        },
    }
}

/// The graph with a relation of an occurrence.
pub open spec fn with_relation(g: GraphV, occ_id: i64, roles: u64, s: SymInfoV) -> Option<
    GraphV,
> {
    match with_symbol(g, s) {
        Some((g1, id)) => Some(
            GraphV {
                relations: g1.relations.push(
                    RelationRow { occ_id, roles: roles as i64, symbol_id: id },
                ),
                ..g1
            },
        ),
        None => None,
    }
}

/// The graph with relations of an occurrence.
pub open spec fn with_relations(g: GraphV, occ_id: i64, rels: Seq<(u64, SymInfoV)>) -> Option<
    GraphV,
>
    decreases rels.len(),
{
    if rels.len() == 0 {
        Some(g)
    } else {
        match with_relation(g, occ_id, rels[0].0, rels[0].1) {
            Some(g1) => with_relations(g1, occ_id, rels.drop_first()),
            None => None,
        }
    }
}

/// The graph with an occurrence of a record, before its relations, and the id
/// of the occurrence.
pub open spec fn with_bare_occurrence(g: GraphV, record_id: i64, o: OccurrenceV) -> Option<
    (GraphV, i64),
> {
    match with_symbol(g, o.symbol) {
        Some((g1, symbol_id)) => match next_id(g1.occurrences) {
            Some(id) => Some(
                (
                    GraphV {
                        occurrences: g1.occurrences.push(
                            OccRow {
                                id,
                                record_id,
                                symbol_id,
                                roles: o.roles as i64,
                                line: o.line as i64,
                                col: o.col as i64,
                            },
                        ),
                        ..g1
                    },
                    id,
                ),
            ),
            None => None,
        },
        None => None,
    }
}

/// The graph with an occurrence of a record.
pub open spec fn with_occurrence(g: GraphV, record_id: i64, o: OccurrenceV) -> Option<GraphV> {
    match with_bare_occurrence(g, record_id, o) {
        Some((g1, id)) => with_relations(g1, id, o.relations),
        None => None,
    }
}

/// The graph with occurrences of a record.
pub open spec fn with_occurrences(
    g: GraphV,
    record_id: i64,
    occs: Seq<OccurrenceV>,
) -> Option<GraphV>
    decreases occs.len(),
{
    if occs.len() == 0 {
        Some(g)
    } else {
        match with_occurrence(g, record_id, occs[0]) {
            Some(g1) => with_occurrences(g1, record_id, occs.drop_first()),
            None => None,
        }
    }
}

/// The graph with a record, before its occurrences, and the id of the record.
pub open spec fn with_bare_record(g: GraphV, name: Seq<char>, path: Seq<char>) -> Option<
    (GraphV, i64),
> {
    match with_file(g, path) {
        Some((g1, file_id)) => match next_id(g1.records) {
            Some(id) => Some(
                (
                    GraphV { records: g1.records.push(RecordV { id, name, file_id }), ..g1 },
                    id,
                ),
            ),
            None => None,
        },
        None => None,
    }
}

/// The graph with a record and its occurrences, and the id of the record.
pub open spec fn with_record(
    g: GraphV,
    name: Seq<char>,
    path: Seq<char>,
    occs: Seq<OccurrenceV>,
) -> Option<(GraphV, i64)> {
    match with_bare_record(g, name, path) {
        Some((g1, id)) => match with_occurrences(g1, id, occs) {
            Some(g2) => Some((g2, id)),
            None => None,
        },
        None => None,
    }
}

/// The graph in which the unit is made of the record.
pub open spec fn with_link(g: GraphV, unit_id: i64, record_id: i64) -> GraphV {
    let link = LinkRow { unit_id, record_id };
    if g.links.contains(link) {
        g
    } else {
        GraphV { links: g.links.push(link), ..g }
    }
}

/// The graph without the unit and its links.
pub open spec fn without_unit(g: GraphV, id: i64) -> GraphV {
    GraphV {
        units: rows::keep(g.units, |u: UnitV| u.id != id),
        links: rows::keep(g.links, |l: LinkRow| l.unit_id != id),
        ..g
    }
}

// ---- a unit -------------------------------------------------------------

/// What a merge has made so far.
pub struct Progress {
    pub graph: GraphV,
    pub stats: MergeStats,
}

/// The next step for one record that a unit is made of: a record that the graph
/// has is used again, any other is added.
pub open spec fn after_dep(
    p: Progress,
    unit_id: i64,
    unit: Seq<char>,
    dep: RecordDepV,
    records: Seq<RecordDataV>,
) -> Result<Progress, MergeErrorV> {
    match db::by_name(p.graph.records, dep.name) {
        Some(r) => if p.stats.records_reused < usize::MAX {
            Ok(
                Progress {
                    graph: with_link(p.graph, unit_id, r.id),
                    stats: MergeStats {
                        records_reused: (p.stats.records_reused + 1) as usize,
                        ..p.stats
                    },
                },
            )
        } else {
            Err(MergeErrorV::Full)
        },
        None => match store::first_named(records, dep.name) {
            Some(data) => match with_record(
                p.graph,
                dep.name,
                dep.file_path,
                data.occurrences,
            ) {
                Some((g, id)) => if p.stats.records_ingested < usize::MAX
                    && p.stats.occurrences_added + data.occurrences.len() <= u64::MAX {
                    Ok(
                        Progress {
                            graph: with_link(g, unit_id, id),
                            stats: MergeStats {
                                records_ingested: (p.stats.records_ingested + 1) as usize,
                                occurrences_added: (p.stats.occurrences_added
                                    + data.occurrences.len()) as u64,
                                ..p.stats
                            },
                        },
                    )
                } else {
                    Err(MergeErrorV::Full)
                },
                None => Err(MergeErrorV::Full),
            },
            None => Err(
                MergeErrorV::Record { unit, name: dep.name, file_path: dep.file_path },
            ),
        },
    }
}

/// The steps for the records that a unit is made of.
pub open spec fn after_deps(
    p: Progress,
    unit_id: i64,
    unit: Seq<char>,
    deps: Seq<RecordDepV>,
    records: Seq<RecordDataV>,
) -> Result<Progress, MergeErrorV>
    decreases deps.len(),
{
    if deps.len() == 0 {
        Ok(p)
    } else {
        match after_dep(p, unit_id, unit, deps[0], records) {
            Ok(p1) => after_deps(p1, unit_id, unit, deps.drop_first(), records),
            Err(e) => Err(e),
        }
    }
}

/// The graph without the unit of the name.
pub open spec fn without_named(g: GraphV, name: Seq<char>) -> GraphV {
    match db::by_name(g.units, name) {
        Some(u) => without_unit(g, u.id),
        None => g,
    }
}

/// The graph with a unit in the place of any of the same name, before its
/// links, and the id of the unit.
pub open spec fn with_bare_unit(g: GraphV, s: StampV, data: UnitDataV) -> Option<(GraphV, i64)> {
    let g0 = without_named(g, s.name);
    let filed = match data.main_file {
        Some(path) if path.len() > 0 => match with_file(g0, path) {
            Some((g1, id)) => Some((g1, Some(id))),
            None => None,
        },
        _ => Some((g0, None)),
    };
    match filed {
        Some((g1, main_file_id)) => match next_id(g1.units) {
            Some(id) => Some(
                (
                    GraphV {
                        units: g1.units.push(
                            UnitV {
                                id,
                                name: s.name,
                                main_file_id,
                                module_name: data.module_name,
                                mtime_ns: s.mtime_ns,
                            },
                        ),
                        ..g1
                    },
                    id,
                ),
            ),
            None => None,
        },
        None => None,
    }
}

/// The step for one unit. A unit whose main file is not there any more has no
/// place in the graph.
pub open spec fn after_unit(
    p: Progress,
    s: StampV,
    units: Seq<UnitDataV>,
    records: Seq<RecordDataV>,
    missing: Seq<Seq<char>>,
) -> Result<Progress, MergeErrorV> {
    match store::first_named(units, s.name) {
        Some(data) => if plan::main_missing(data, missing) {
            Ok(Progress { graph: without_named(p.graph, s.name), stats: p.stats })
        } else {
            match with_bare_unit(p.graph, s, data) {
                Some((g, id)) => after_deps(
                    Progress { graph: g, stats: p.stats },
                    id,
                    s.name,
                    data.deps,
                    records,
                ),
                None => Err(MergeErrorV::Full),
            }
        },
        None => Err(MergeErrorV::Unit { name: s.name }),
    }
}

/// The steps for units, which are counted.
pub open spec fn after_units(
    p: Progress,
    list: Seq<StampV>,
    units: Seq<UnitDataV>,
    records: Seq<RecordDataV>,
    missing: Seq<Seq<char>>,
) -> Result<Progress, MergeErrorV>
    decreases list.len(),
{
    if list.len() == 0 {
        Ok(p)
    } else {
        match after_unit(p, list[0], units, records, missing) {
            Ok(p1) => if p1.stats.units_processed < usize::MAX {
                after_units(
                    Progress {
                        graph: p1.graph,
                        stats: MergeStats {
                            units_processed: (p1.stats.units_processed + 1) as usize,
                            ..p1.stats
                        },
                    },
                    list.drop_first(),
                    units,
                    records,
                    missing,
                )
            } else {
                Err(MergeErrorV::Full)
            },
            Err(e) => Err(e),
        }
    }
}

/// The graph without units.
pub open spec fn without_units(g: GraphV, ids: Seq<i64>) -> GraphV
    decreases ids.len(),
{
    if ids.len() == 0 {
        g
    } else {
        without_units(without_unit(g, ids[0]), ids.drop_first())
    }
}

// ---- what is left over --------------------------------------------------

/// Whether a unit is made of the record.
pub open spec fn is_linked(g: GraphV, record_id: i64) -> bool {
    exists|i: int| 0 <= i < g.links.len() && (#[trigger] g.links[i]).record_id == record_id
}

/// Whether the graph has the record, and no unit is made of it.
pub open spec fn is_dead(g: GraphV, record_id: i64) -> bool {
    db::by_id(g.records, record_id) is Some && !is_linked(g, record_id)
}

/// Whether the relation belongs to an occurrence of a dead record.
pub open spec fn is_dead_relation(g: GraphV, r: RelationRow) -> bool {
    match db::by_id(g.occurrences, r.occ_id) {
        Some(o) => is_dead(g, o.record_id),
        None => false,
    }
}

/// Whether a symbol occurs or is related to an occurrence.
pub open spec fn is_used(g: GraphV, symbol_id: i64) -> bool {
    ||| exists|i: int|
        0 <= i < g.occurrences.len() && (#[trigger] g.occurrences[i]).symbol_id == symbol_id
    ||| exists|i: int|
        0 <= i < g.relations.len() && (#[trigger] g.relations[i]).symbol_id == symbol_id
}

/// The graph without dead records, their occurrences and the relations of
/// those.
pub open spec fn without_dead(g: GraphV) -> GraphV {
    GraphV {
        records: rows::keep(g.records, |r: RecordV| !is_dead(g, r.id)),
        occurrences: rows::keep(g.occurrences, |o: OccRow| !is_dead(g, o.record_id)),
        relations: rows::keep(g.relations, |r: RelationRow| !is_dead_relation(g, r)),
        ..g
    }
}

/// The graph without symbols that are not used.
pub open spec fn without_unused(g: GraphV) -> GraphV {
    GraphV { symbols: rows::keep(g.symbols, |s: SymbolV| is_used(g, s.id)), ..g }
}

/// The graph without what no unit is made of any more, and without symbols that
/// are then not used.
pub open spec fn collected(g: GraphV) -> GraphV {
    without_unused(without_dead(g))
}

// ---- the whole merge ----------------------------------------------------

/// The graph that a merge starts from.
pub open spec fn base(g: GraphV, full: bool) -> GraphV {
    if full {
        GraphV::empty()
    } else {
        g
    }
}

/// The outcome of a merge at its start: how many units the store lists, and how
/// many are removed.
pub open spec fn start_stats(g: GraphV, snap: SnapshotV) -> MergeStats {
    MergeStats {
        units_total: snap.listing.len() as usize,
        units_removed: plan::units_to_drop(g, snap.listing, snap.missing_sources).len() as usize,
        ..no_stats()
    }
}

/// What a merge makes, or why it fails. Where no unit was read or removed,
/// nothing is left over.
pub open spec fn merged(g: GraphV, snap: SnapshotV, full: bool) -> Result<
    Progress,
    MergeErrorV,
> {
    let g0 = base(g, full);
    let g1 = without_units(g0, plan::units_to_drop(g0, snap.listing, snap.missing_sources));
    match after_units(
        Progress { graph: g1, stats: start_stats(g0, snap) },
        plan::units_to_read(g0, snap.listing, snap.missing_sources),
        snap.units,
        snap.records,
        snap.missing_sources,
    ) {
        Ok(p) => if p.stats.units_removed > 0 || p.stats.units_processed > 0 {
            Ok(Progress { graph: collected(p.graph), stats: p.stats })
        } else {
            Ok(p)
        },
        Err(e) => Err(e),
    }
}

// ---- the merger ---------------------------------------------------------

fn find_next_id<T: Keyed>(v: &Vec<T>) -> (r: Option<i64>)
    ensures
        r == next_id(db::values(v@)),
{
    let n = v.len();
    if n == 0 {
        return Some(1);
    }
    let last = v[n - 1].id_of();
    assert(db::values(v@).last() == v@[n - 1].value());
    if last < i64::MAX {
        Some(last + 1)
    } else {
        None
    }
}

/// The way from the names of a table to its ids.
fn index_table<T: Named>(rows: &Vec<T>) -> (m: StringHashMap<i64>) where T::Value: HasName
    requires
        db::names_differ(db::values(rows@)),
    ensures
        db::indexes(m@, db::values(rows@)),
{
    match index_rows(rows) {
        Some(m) => m,
        None => StringHashMap::new(),
    }
}

/// A graph that is being merged into, with ways from names to ids.
pub struct Merger {
    pub graph: Graph,
    pub file_ids: StringHashMap<i64>,
    pub symbol_ids: StringHashMap<i64>,
    pub record_ids: StringHashMap<i64>,
}

impl Merger {
    /// Whether the tables keep their keys, and the names lead to the ids.
    pub open spec fn inv(&self) -> bool {
        &&& self.graph.wf()
        &&& db::indexes(self.file_ids@, self.graph@.files)
        &&& db::indexes(self.symbol_ids@, self.graph@.symbols)
        &&& db::indexes(self.record_ids@, self.graph@.records)
    }

    /// A merger into the graph.
    pub fn new(graph: Graph) -> (r: Merger)
        requires
            graph.wf(),
        ensures
            r.inv(),
            r.graph == graph,
    {
        let file_ids = index_table(&graph.files);
        let symbol_ids = index_table(&graph.symbols);
        let record_ids = index_table(&graph.records);
        Merger { graph, file_ids, symbol_ids, record_ids }
    }

    /// The id of the file, which is added where the graph does not have it.
    fn file_id(&mut self, path: &String) -> (r: Option<i64>)
        requires
            old(self).inv(),
        ensures
            match r {
                Some(id) => final(self).inv() && with_file(old(self).graph@, path@) == Some(
                    (final(self).graph@, id),
                ),
                None => with_file(old(self).graph@, path@) is None,
            },
    {
        let ghost g = self.graph@;
        proof {
            db::lemma_indexes(self.file_ids@, g.files, path@);
        }
        if let Some(id) = self.file_ids.get(path.as_str()) {
            return Some(*id);
        }
        match find_next_id(&self.graph.files) {
            Some(id) => {
                let row = FileRow { id, path: path.clone() };
                let ghost x = row@;
                proof {
                    db::lemma_ascending_push(g.files, x);
                    db::lemma_names_push(g.files, x);
                    db::lemma_indexes_push(self.file_ids@, g.files, x);
                }
                self.graph.files.push(row);
                self.file_ids.insert(path.clone(), id);
                proof {
                    assert(self.graph@.files =~= g.files.push(x));
                    assert(self.graph@ =~= GraphV { files: g.files.push(x), ..g });
                }
                Some(id)
            },
            None => None,
        }
    }

    /// The id of the symbol, which is added where the graph does not have it. A
    /// symbol that the graph has keeps its row.
    pub fn symbol_id(&mut self, s: &SymInfo) -> (r: Option<i64>)
        requires
            old(self).inv(),
        ensures
            final(self).inv(),
            match r {
                Some(id) => with_symbol(old(self).graph@, s@) == Some((final(self).graph@, id)),
                None => with_symbol(old(self).graph@, s@) is None && final(self).graph@ == old(
                    self,
                ).graph@,
            },
    {
        let ghost g = self.graph@;
        proof {
            db::lemma_indexes(self.symbol_ids@, g.symbols, s.usr@);
        }
        if let Some(id) = self.symbol_ids.get(s.usr.as_str()) {
            return Some(*id);
        }
        match find_next_id(&self.graph.symbols) {
            Some(id) => {
                let row = SymbolRow {
                    id,
                    usr: s.usr.clone(),
                    name: s.name.clone(),
                    kind: s.kind as i64,
                    lang: s.lang as i64,
                };
                let ghost x = row@;
                proof {
                    db::lemma_ascending_push(g.symbols, x);
                    db::lemma_names_push(g.symbols, x);
                    db::lemma_indexes_push(self.symbol_ids@, g.symbols, x);
                }
                self.graph.symbols.push(row);
                self.symbol_ids.insert(s.usr.clone(), id);
                proof {
                    assert(self.graph@.symbols =~= g.symbols.push(x));
                    assert(self.graph@ =~= GraphV { symbols: g.symbols.push(x), ..g });
                }
                Some(id)
            },
            None => None,
        }
    }

    /// Adds relations of an occurrence. Tells whether there was room.
    fn add_relations(&mut self, occ_id: i64, rels: &Vec<(u64, SymInfo)>) -> (ok: bool)
        requires
            old(self).inv(),
        ensures
            ok ==> final(self).inv(),
            with_relations(
                old(self).graph@,
                occ_id,
                rels@.map_values(|r: (u64, SymInfo)| (r.0, r.1@)),
            ) == (if ok {
                Some(final(self).graph@)
            } else {
                None::<GraphV>
            }),
    {
        let ghost g0 = self.graph@;
        let ghost all = rels@.map_values(|r: (u64, SymInfo)| (r.0, r.1@));
        let mut i: usize = 0;
        assert(all.skip(0) =~= all);
        while i < rels.len()
            invariant
                self.inv(),
                g0 == old(self).graph@,
                all == rels@.map_values(|r: (u64, SymInfo)| (r.0, r.1@)),
                i <= rels.len(),
                with_relations(g0, occ_id, all) == with_relations(
                    self.graph@,
                    occ_id,
                    all.skip(i as int),
                ),
            decreases rels.len() - i,
        {
            let ghost g = self.graph@;
            assert(all.skip(i as int)[0] == (rels@[i as int].0, rels@[i as int].1@));
            assert(all.skip(i as int).drop_first() =~= all.skip(i + 1));
            match self.symbol_id(&rels[i].1) {
                Some(id) => {
                    let ghost g1 = self.graph@;
                    #[verifier::truncate]
                    let roles = rels[i].0 as i64;
                    let row = RelationRow { occ_id, roles, symbol_id: id };
                    self.graph.relations.push(row);
                    assert(self.graph@ =~= GraphV { relations: g1.relations.push(row), ..g1 });
                },
                None => {
                    return false;
                },
            }
            i = i + 1;
        }
        true
    }

    /// Adds an occurrence of a record, with its relations. Tells whether there
    /// was room.
    fn add_occurrence(&mut self, record_id: i64, o: &Occurrence) -> (ok: bool)
        requires
            old(self).inv(),
        ensures
            ok ==> final(self).inv(),
            with_occurrence(old(self).graph@, record_id, o@) == (if ok {
                Some(final(self).graph@)
            } else {
                None::<GraphV>
            }),
    {
        match self.symbol_id(&o.symbol) {
            Some(symbol_id) => {
                let ghost g1 = self.graph@;
                assert(db::values(self.graph.occurrences@) =~= self.graph.occurrences@);
                match find_next_id(&self.graph.occurrences) {
                    Some(id) => {
                        #[verifier::truncate]
                        let roles = o.roles as i64;
                        let row = OccRow {
                            id,
                            record_id,
                            symbol_id,
                            roles,
                            line: o.line as i64,
                            col: o.col as i64,
                        };
                        proof {
                            db::lemma_ascending_push(g1.occurrences, row);
                        }
                        self.graph.occurrences.push(row);
                        assert(self.graph@ =~= GraphV {
                            occurrences: g1.occurrences.push(row),
                            ..g1
                        });
                        self.add_relations(id, &o.relations)
                    },
                    None => false,
                }
            },
            None => false,
        }
    }

    /// Adds a record and its occurrences, and gives its id.
    fn ingest_record(&mut self, name: &String, path: &String, occs: &Vec<Occurrence>) -> (r:
        Option<i64>)
        requires
            old(self).inv(),
            db::by_name(old(self).graph@.records, name@) is None,
        ensures
            match r {
                Some(id) => final(self).inv() && with_record(
                    old(self).graph@,
                    name@,
                    path@,
                    occs@.map_values(|o: Occurrence| o@),
                ) == Some((final(self).graph@, id)),
                None => with_record(
                    old(self).graph@,
                    name@,
                    path@,
                    occs@.map_values(|o: Occurrence| o@),
                ) is None,
            },
    {
        let file_id = match self.file_id(path) {
            Some(id) => id,
            None => {
                return None;
            },
        };
        let ghost g1 = self.graph@;
        let id = match find_next_id(&self.graph.records) {
            Some(id) => id,
            None => {
                return None;
            },
        };
        let row = RecordRow { id, name: name.clone(), file_id };
        let ghost x = row@;
        proof {
            db::lemma_ascending_push(g1.records, x);
            db::lemma_names_push(g1.records, x);
            db::lemma_indexes(self.record_ids@, g1.records, name@);
            db::lemma_indexes_push(self.record_ids@, g1.records, x);
        }
        self.graph.records.push(row);
        self.record_ids.insert(name.clone(), id);
        proof {
            assert(self.graph@.records =~= g1.records.push(x));
            assert(self.graph@ =~= GraphV { records: g1.records.push(x), ..g1 });
        }
        let ghost g2 = self.graph@;
        let ghost all = occs@.map_values(|o: Occurrence| o@);
        let mut i: usize = 0;
        assert(all.skip(0) =~= all);
        while i < occs.len()
            invariant
                self.inv(),
                with_bare_record(old(self).graph@, name@, path@) == Some((g2, id)),
                all == occs@.map_values(|o: Occurrence| o@),
                i <= occs.len(),
                with_occurrences(g2, id, all) == with_occurrences(
                    self.graph@,
                    id,
                    all.skip(i as int),
                ),
            decreases occs.len() - i,
        {
            assert(all.skip(i as int)[0] == occs@[i as int]@);
            assert(all.skip(i as int).drop_first() =~= all.skip(i + 1));
            if !self.add_occurrence(id, &occs[i]) {
                return None;
            }
            i = i + 1;
        }
        Some(id)
    }

    /// Removes a unit and its links.
    fn remove_unit(&mut self, id: i64)
        requires
            old(self).inv(),
        ensures
            final(self).inv(),
            final(self).graph@ == without_unit(old(self).graph@, id),
    {
        let ghost g = self.graph@;
        let ghost p = |u: UnitV| u.id != id;
        let ghost q = |l: LinkRow| l.unit_id != id;
        let mut units: Vec<UnitRow> = Vec::new();
        let mut i: usize = 0;
        proof {
            assert(db::values(units@) =~= Seq::<UnitV>::empty());
            rows::lemma_gather_start(g.units, rows::pick(p));
        }
        while i < self.graph.units.len()
            invariant
                self == old(self),
                g == self.graph@,
                g.units.len() == self.graph.units.len(),
                p == (|u: UnitV| u.id != id),
                i <= self.graph.units.len(),
                db::values(units@) + rows::gather(g.units.skip(i as int), rows::pick(p))
                    == rows::keep(g.units, p),
            decreases self.graph.units.len() - i,
        {
            let ghost before = units@;
            proof {
                rows::lemma_gather_step(g.units, rows::pick(p), db::values(units@), i as int);
                assert(g.units[i as int] == self.graph.units@[i as int]@);
            }
            if self.graph.units[i].id != id {
                units.push(self.graph.units[i].copied());
            }
            assert(db::values(units@) =~= db::values(before) + rows::pick(p)(g.units[i as int]));
            i = i + 1;
        }
        let mut links: Vec<LinkRow> = Vec::new();
        let mut j: usize = 0;
        proof {
            rows::lemma_gather_end(g.units, rows::pick(p), db::values(units@));
            rows::lemma_gather_start(g.links, rows::pick(q));
        }
        while j < self.graph.links.len()
            invariant
                self == old(self),
                g == self.graph@,
                q == (|l: LinkRow| l.unit_id != id),
                j <= self.graph.links.len(),
                links@ + rows::gather(g.links.skip(j as int), rows::pick(q)) == rows::keep(
                    g.links,
                    q,
                ),
            decreases self.graph.links.len() - j,
        {
            let ghost before = links@;
            proof {
                rows::lemma_gather_step(g.links, rows::pick(q), links@, j as int);
            }
            if self.graph.links[j].unit_id != id {
                links.push(self.graph.links[j]);
            }
            assert(links@ =~= before + rows::pick(q)(g.links[j as int]));
            j = j + 1;
        }
        proof {
            rows::lemma_gather_end(g.links, rows::pick(q), links@);
            db::lemma_ascending_keep(g.units, p);
            db::lemma_names_keep(g.units, p);
        }
        self.graph.units = units;
        self.graph.links = links;
        assert(self.graph@ =~= without_unit(g, id));
    }
}

/// Whether `seen` holds the records that the unit is made of.
spec fn sees(seen: Map<i64, bool>, links: Seq<LinkRow>, unit_id: i64) -> bool {
    forall|record_id: i64| #[trigger]
        seen.contains_key(record_id) <==> links.contains(LinkRow { unit_id, record_id })
}

impl Merger {
    /// The records that the unit is made of.
    fn linked_records(&self, unit_id: i64) -> (seen: HashMapWithView<i64, bool>)
        ensures
            sees(seen@, self.graph@.links, unit_id),
    {
        broadcast use vstd::std_specs::hash::group_hash_axioms;

        let mut seen: HashMapWithView<i64, bool> = HashMapWithView::new();
        let ghost all = self.graph.links@;
        let mut i: usize = 0;
        while i < self.graph.links.len()
            invariant
                all == self.graph.links@,
                i <= all.len(),
                forall|record_id: i64| #[trigger]
                    seen@.contains_key(record_id) <==> exists|k: int|
                        0 <= k < i && all[k] == (LinkRow { unit_id, record_id }),
            decreases all.len() - i,
        {
            let ghost before = seen@;
            let l = self.graph.links[i];
            if l.unit_id == unit_id {
                seen.insert(l.record_id, true);
            }
            proof {
                assert forall|record_id: i64| #[trigger] seen@.contains_key(record_id)
                    <==> exists|k: int|
                    0 <= k < i + 1 && all[k] == (LinkRow { unit_id, record_id }) by {
                    let want = LinkRow { unit_id, record_id };
                    if seen@.contains_key(record_id) {
                        if before.contains_key(record_id) {
                            let k = choose|k: int| 0 <= k < i && all[k] == want;
                            assert(0 <= k < i + 1 && all[k] == want);
                        } else {
                            assert(all[i as int] == want);
                        }
                    }
                    if exists|k: int| 0 <= k < i + 1 && all[k] == want {
                        let k = choose|k: int| 0 <= k < i + 1 && all[k] == want;
                        if k < i {
                            assert(0 <= k < i && all[k] == want);
                            assert(before.contains_key(record_id));
                        }
                    }
                }
            }
            i = i + 1;
        }
        seen
    }

    /// Makes the unit be made of the record.
    fn link(&mut self, seen: &mut HashMapWithView<i64, bool>, unit_id: i64, record_id: i64)
        requires
            old(self).inv(),
            sees(old(seen)@, old(self).graph@.links, unit_id),
        ensures
            final(self).inv(),
            sees(final(seen)@, final(self).graph@.links, unit_id),
            final(self).graph@ == with_link(old(self).graph@, unit_id, record_id),
    {
        let ghost g = self.graph@;
        let link = LinkRow { unit_id, record_id };
        if !seen.contains_key(&record_id) {
            seen.insert(record_id, true);
            self.graph.links.push(link);
            proof {
                assert(self.graph@ =~= GraphV { links: g.links.push(link), ..g });
                let links = self.graph@.links;
                assert forall|r: i64| #[trigger] seen@.contains_key(r) <==> links.contains(
                    LinkRow { unit_id, record_id: r },
                ) by {
                    let want = LinkRow { unit_id, record_id: r };
                    if r == record_id {
                        assert(links[g.links.len() as int] == want);
                    } else {
                        assert(old(seen)@.contains_key(r) <==> g.links.contains(want));
                        if g.links.contains(want) {
                            let k = choose|k: int| 0 <= k < g.links.len() && g.links[k] == want;
                            assert(links[k] == want);
                        }
                        if links.contains(want) {
                            let k = choose|k: int| 0 <= k < links.len() && links[k] == want;
                            assert(g.links[k] == want);
                        }
                    }
                }
            }
        } else {
            assert(g.links.contains(link));
        }
    }

    /// Makes the unit be made of a record, which is added where the graph does
    /// not have it.
    fn add_dep(
        &mut self,
        seen: &mut HashMapWithView<i64, bool>,
        unit_id: i64,
        unit: &String,
        dep: &RecordDep,
        records: &Vec<RecordData>,
        places: &StringHashMap<usize>,
        stats: &mut MergeStats,
    ) -> (r: Result<(), MergeError>)
        requires
            old(self).inv(),
            sees(old(seen)@, old(self).graph@.links, unit_id),
            store::leads(places@, store::readings(records@)),
        ensures
            match r {
                Ok(()) => final(self).inv() && sees(
                    final(seen)@,
                    final(self).graph@.links,
                    unit_id,
                ) && after_dep(
                    Progress { graph: old(self).graph@, stats: *old(stats) },
                    unit_id,
                    unit@,
                    dep@,
                    store::readings(records@),
                ) == Ok::<Progress, MergeErrorV>(
                    Progress { graph: final(self).graph@, stats: *final(stats) },
                ),
                Err(e) => after_dep(
                    Progress { graph: old(self).graph@, stats: *old(stats) },
                    unit_id,
                    unit@,
                    dep@,
                    store::readings(records@),
                ) == Err::<Progress, MergeErrorV>(e@),
            },
    {
        let ghost g = self.graph@;
        proof {
            db::lemma_indexes(self.record_ids@, g.records, dep.name@);
        }
        let known = match self.record_ids.get(dep.name.as_str()) {
            Some(id) => Some(*id),
            None => None,
        };
        match known {
            Some(id) => {
                if stats.records_reused == usize::MAX {
                    return Err(MergeError::Full);
                }
                stats.records_reused = stats.records_reused + 1;
                self.link(seen, unit_id, id);
                Ok(())
            },
            None => {
                match find_reading(records, places, dep.name.as_str()) {
                    Some(data) => {
                        let ghost occs = data.occurrences@.map_values(|o: Occurrence| o@);
                        match self.ingest_record(&dep.name, &dep.file_path, &data.occurrences) {
                            Some(id) => {
                                let n = data.occurrences.len() as u64;
                                if stats.records_ingested == usize::MAX || stats.occurrences_added
                                    > u64::MAX - n {
                                    return Err(MergeError::Full);
                                }
                                stats.records_ingested = stats.records_ingested + 1;
                                stats.occurrences_added = stats.occurrences_added + n;
                                proof {
                                    lemma_record_keeps_links(g, dep.name@, dep.file_path@, occs);
                                }
                                self.link(seen, unit_id, id);
                                Ok(())
                            },
                            None => Err(MergeError::Full),
                        }
                    },
                    None => Err(
                        MergeError::Record {
                            unit: unit.clone(),
                            name: dep.name.clone(),
                            file_path: dep.file_path.clone(),
                        },
                    ),
                }
            },
        }
    }

    /// Removes the unit of the name, where there is one.
    fn remove_named(&mut self, name: &String)
        requires
            old(self).inv(),
        ensures
            final(self).inv(),
            final(self).graph@ == without_named(old(self).graph@, name@),
            db::by_name(final(self).graph@.units, name@) is None,
    {
        let ghost g = self.graph@;
        let mut i: usize = 0;
        let mut found: Option<i64> = None;
        while i < self.graph.units.len()
            invariant
                self == old(self),
                g == self.graph@,
                g.units.len() == self.graph.units.len(),
                i <= self.graph.units.len(),
                match found {
                    Some(id) => exists|k: int|
                        k < i && db::has_name_at(g.units, name@, k) && g.units[k].id == id,
                    None => forall|k: int| k < i ==> !db::has_name_at(g.units, name@, k),
                },
            decreases self.graph.units.len() - i,
        {
            assert(g.units[i as int] == self.graph.units@[i as int]@);
            if self.graph.units[i].name == *name {
                assert(db::has_name_at(g.units, name@, i as int));
                found = Some(self.graph.units[i].id);
            }
            i = i + 1;
        }
        proof {
            match found {
                Some(id) => {
                    let k = choose|k: int|
                        k < i && db::has_name_at(g.units, name@, k) && g.units[k].id == id;
                    db::lemma_by_name(g.units, k);
                },
                None => {},
            }
        }
        if let Some(id) = found {
            self.remove_unit(id);
            proof {
                let p = |u: UnitV| u.id != id;
                let left = rows::keep(g.units, p);
                assert forall|k: int| !db::has_name_at(left, name@, k) by {
                    if db::has_name_at(left, name@, k) {
                        assert(left.contains(left[k]));
                        rows::lemma_keep_members(g.units, p, left[k]);
                        let j = choose|j: int| 0 <= j < g.units.len() && g.units[j] == left[k];
                        db::lemma_by_name(g.units, j);
                    }
                }
            }
        }
    }

    /// Puts a unit in the place of any of the same name, and gives its id.
    fn add_unit(&mut self, s: &UnitStamp, data: &UnitData) -> (r: Option<i64>)
        requires
            old(self).inv(),
        ensures
            match r {
                Some(id) => final(self).inv() && with_bare_unit(
                    old(self).graph@,
                    s@,
                    data@,
                ) == Some((final(self).graph@, id)),
                None => with_bare_unit(old(self).graph@, s@, data@) is None,
            },
    {
        self.remove_named(&s.name);
        let ghost g0 = self.graph@;
        let mut main_file_id: Option<i64> = None;
        if let Some(path) = &data.main_file {
            if !path.as_str().is_empty() {
                match self.file_id(path) {
                    Some(id) => {
                        main_file_id = Some(id);
                    },
                    None => {
                        return None;
                    },
                }
            }
        }
        let ghost g1 = self.graph@;
        assert(g1.units == g0.units);
        match find_next_id(&self.graph.units) {
            Some(id) => {
                let row = UnitRow {
                    id,
                    name: s.name.clone(),
                    main_file_id,
                    module_name: data.module_name.clone(),
                    mtime_ns: s.mtime_ns,
                };
                let ghost x = row@;
                proof {
                    db::lemma_ascending_push(g1.units, x);
                    db::lemma_names_push(g1.units, x);
                }
                self.graph.units.push(row);
                proof {
                    assert(self.graph@.units =~= g1.units.push(x));
                    assert(self.graph@ =~= GraphV { units: g1.units.push(x), ..g1 });
                }
                Some(id)
            },
            None => None,
        }
    }

    /// Brings one unit of the graph to what the store says.
    fn process_unit(
        &mut self,
        s: &UnitStamp,
        data: &UnitData,
        records: &Vec<RecordData>,
        places: &StringHashMap<usize>,
        stats: &mut MergeStats,
    ) -> (r: Result<(), MergeError>)
        requires
            old(self).inv(),
            store::leads(places@, store::readings(records@)),
        ensures
            ({
                let made = match with_bare_unit(old(self).graph@, s@, data@) {
                    Some((g, id)) => after_deps(
                        Progress { graph: g, stats: *old(stats) },
                        id,
                        s@.name,
                        data@.deps,
                        store::readings(records@),
                    ),
                    None => Err(MergeErrorV::Full),
                };
                match r {
                    Ok(()) => final(self).inv() && made == Ok::<Progress, MergeErrorV>(
                        Progress { graph: final(self).graph@, stats: *final(stats) },
                    ),
                    Err(e) => made == Err::<Progress, MergeErrorV>(e@),
                }
            }),
    {
        let unit_id = match self.add_unit(s, data) {
            Some(id) => id,
            None => {
                return Err(MergeError::Full);
            },
        };
        let ghost start = Progress { graph: self.graph@, stats: *stats };
        let ghost all = data.deps@.map_values(|d: RecordDep| d@);
        let mut seen = self.linked_records(unit_id);
        let mut i: usize = 0;
        assert(all.skip(0) =~= all);
        while i < data.deps.len()
            invariant
                self.inv(),
                sees(seen@, self.graph@.links, unit_id),
                store::leads(places@, store::readings(records@)),
                all == data.deps@.map_values(|d: RecordDep| d@),
                all == data@.deps,
                start.stats == *old(stats),
                with_bare_unit(old(self).graph@, s@, data@) == Some((start.graph, unit_id)),
                i <= data.deps.len(),
                after_deps(start, unit_id, s@.name, all, store::readings(records@)) == after_deps(
                    Progress { graph: self.graph@, stats: *stats },
                    unit_id,
                    s@.name,
                    all.skip(i as int),
                    store::readings(records@),
                ),
            decreases data.deps.len() - i,
        {
            assert(all.skip(i as int)[0] == data.deps@[i as int]@);
            assert(all.skip(i as int).drop_first() =~= all.skip(i + 1));
            match self.add_dep(
                &mut seen,
                unit_id,
                &s.name,
                &data.deps[i],
                records,
                places,
                stats,
            ) {
                Ok(()) => {},
                Err(e) => {
                    return Err(e);
                },
            }
            i = i + 1;
        }
        Ok(())
    }
}

/// Adding to the symbols of a graph leaves its links.
proof fn lemma_relations_keep_links(g: GraphV, occ_id: i64, rels: Seq<(u64, SymInfoV)>)
    ensures
        match with_relations(g, occ_id, rels) {
            Some(g1) => g1.links == g.links,
            None => true,
        },
    decreases rels.len(),
{
    if rels.len() > 0 {
        match with_relation(g, occ_id, rels[0].0, rels[0].1) {
            Some(g1) => {
                lemma_relations_keep_links(g1, occ_id, rels.drop_first());
            },
            None => {},
        }
    }
}

pub proof fn lemma_occurrences_keep_links(g: GraphV, record_id: i64, occs: Seq<OccurrenceV>)
    ensures
        match with_occurrences(g, record_id, occs) {
            Some(g1) => g1.links == g.links,
            None => true,
        },
    decreases occs.len(),
{
    if occs.len() > 0 {
        match with_bare_occurrence(g, record_id, occs[0]) {
            Some((g1, id)) => {
                lemma_relations_keep_links(g1, id, occs[0].relations);
                match with_relations(g1, id, occs[0].relations) {
                    Some(g2) => {
                        lemma_occurrences_keep_links(g2, record_id, occs.drop_first());
                    },
                    None => {},
                }
            },
            None => {},
        }
    }
}

/// Adding a record leaves what units are made of.
proof fn lemma_record_keeps_links(
    g: GraphV,
    name: Seq<char>,
    path: Seq<char>,
    occs: Seq<OccurrenceV>,
)
    ensures
        match with_record(g, name, path, occs) {
            Some((g1, id)) => g1.links == g.links,
            None => true,
        },
{
    match with_bare_record(g, name, path) {
        Some((g1, id)) => {
            lemma_occurrences_keep_links(g1, id, occs);
        },
        None => {},
    }
}

// ---- removing what is left over -----------------------------------------

/// Tells of each record whether a unit is made of it.
fn find_linked(graph: &Graph) -> (r: Vec<bool>)
    requires
        graph.wf(),
    ensures
        r@.len() == graph@.records.len(),
        forall|k: int|
            0 <= k < r@.len() ==> #[trigger] r@[k] == is_linked(graph@, graph@.records[k].id),
{
    let ghost recs = graph@.records;
    let ghost links = graph@.links;
    let mut r: Vec<bool> = Vec::new();
    let mut i: usize = 0;
    while i < graph.records.len()
        invariant
            i <= graph.records.len(),
            r@.len() == i,
            forall|k: int| 0 <= k < i ==> !#[trigger] r@[k],
        decreases graph.records.len() - i,
    {
        r.push(false);
        i = i + 1;
    }
    let mut j: usize = 0;
    while j < graph.links.len()
        invariant
            graph.wf(),
            recs == graph@.records,
            recs.len() == graph.records.len(),
            links == graph.links@,
            j <= links.len(),
            r@.len() == recs.len(),
            forall|k: int|
                0 <= k < r@.len() ==> (#[trigger] r@[k] <==> exists|m: int|
                    0 <= m < j && (#[trigger] links[m]).record_id == recs[k].id),
        decreases links.len() - j,
    {
        let ghost before = r@;
        let id = graph.links[j].record_id;
        match find_id(&graph.records, id) {
            Some(at) => {
                r.set(at, true);
                proof {
                    assert(recs[at as int].id == id);
                    assert forall|k: int| 0 <= k < r@.len() implies (#[trigger] r@[k]
                        <==> exists|m: int|
                        0 <= m < j + 1 && (#[trigger] links[m]).record_id == recs[k].id) by {
                        if k == at {
                            assert(links[j as int].record_id == recs[k].id);
                        } else {
                            assert(r@[k] == before[k]);
                            if before[k] {
                                let m = choose|m: int|
                                    0 <= m < j && (#[trigger] links[m]).record_id == recs[k].id;
                                assert(links[m].record_id == recs[k].id);
                            }
                            if k < at {
                                assert(recs[k].rid() < recs[at as int].rid());
                            } else {
                                assert(recs[at as int].rid() < recs[k].rid());
                            }
                        }
                    }
                }
            },
            None => {
                proof {
                    assert forall|k: int| 0 <= k < r@.len() implies (#[trigger] r@[k]
                        <==> exists|m: int|
                        0 <= m < j + 1 && (#[trigger] links[m]).record_id == recs[k].id) by {
                        assert(!db::has_id_at(recs, id, k));
                        if before[k] {
                            let m = choose|m: int|
                                0 <= m < j && (#[trigger] links[m]).record_id == recs[k].id;
                            assert(links[m].record_id == recs[k].id);
                        }
                    }
                }
            },
        }
        j = j + 1;
    }
    r
}

fn test_dead(graph: &Graph, linked: &Vec<bool>, record_id: i64) -> (r: bool)
    requires
        graph.wf(),
        linked@.len() == graph@.records.len(),
        forall|k: int|
            0 <= k < linked@.len() ==> #[trigger] linked@[k] == is_linked(
                graph@,
                graph@.records[k].id,
            ),
    ensures
        r == is_dead(graph@, record_id),
{
    match find_id(&graph.records, record_id) {
        Some(i) => {
            assert(graph@.records[i as int].id == record_id);
            !linked[i]
        },
        None => false,
    }
}

fn test_dead_relation(graph: &Graph, linked: &Vec<bool>, r: &RelationRow) -> (d: bool)
    requires
        graph.wf(),
        linked@.len() == graph@.records.len(),
        forall|k: int|
            0 <= k < linked@.len() ==> #[trigger] linked@[k] == is_linked(
                graph@,
                graph@.records[k].id,
            ),
    ensures
        d == is_dead_relation(graph@, *r),
{
    assert(db::values(graph.occurrences@) =~= graph.occurrences@);
    match find_id(&graph.occurrences, r.occ_id) {
        Some(i) => test_dead(graph, linked, graph.occurrences[i].record_id),
        None => false,
    }
}

/// Removes dead records, their occurrences and the relations of those.
fn remove_dead(graph: &mut Graph)
    requires
        old(graph).wf(),
    ensures
        final(graph).wf(),
        final(graph)@ == without_dead(old(graph)@),
{
    let ghost g = graph@;
    let linked = find_linked(graph);
    let ghost p = |r: RecordV| !is_dead(g, r.id);
    let ghost q = |o: OccRow| !is_dead(g, o.record_id);
    let ghost t = |r: RelationRow| !is_dead_relation(g, r);
    let mut records: Vec<RecordRow> = Vec::new();
    let mut i: usize = 0;
    proof {
        assert(db::values(records@) =~= Seq::<RecordV>::empty());
        rows::lemma_gather_start(g.records, rows::pick(p));
    }
    while i < graph.records.len()
        invariant
            graph.wf(),
            g == graph@,
            g.records.len() == graph.records.len(),
            linked@.len() == g.records.len(),
            forall|k: int|
                0 <= k < linked@.len() ==> #[trigger] linked@[k] == is_linked(
                    g,
                    g.records[k].id,
                ),
            p == (|r: RecordV| !is_dead(g, r.id)),
            i <= graph.records.len(),
            db::values(records@) + rows::gather(g.records.skip(i as int), rows::pick(p))
                == rows::keep(g.records, p),
        decreases graph.records.len() - i,
    {
        let ghost before = records@;
        proof {
            rows::lemma_gather_step(g.records, rows::pick(p), db::values(records@), i as int);
            assert(g.records[i as int] == graph.records@[i as int]@);
        }
        if !test_dead(graph, &linked, graph.records[i].id) {
            records.push(graph.records[i].copied());
        }
        assert(db::values(records@) =~= db::values(before) + rows::pick(p)(
            g.records[i as int],
        ));
        i = i + 1;
    }
    let mut occurrences: Vec<OccRow> = Vec::new();
    let mut j: usize = 0;
    proof {
        rows::lemma_gather_end(g.records, rows::pick(p), db::values(records@));
        rows::lemma_gather_start(g.occurrences, rows::pick(q));
    }
    while j < graph.occurrences.len()
        invariant
            graph.wf(),
            g == graph@,
            linked@.len() == g.records.len(),
            forall|k: int|
                0 <= k < linked@.len() ==> #[trigger] linked@[k] == is_linked(
                    g,
                    g.records[k].id,
                ),
            q == (|o: OccRow| !is_dead(g, o.record_id)),
            j <= graph.occurrences.len(),
            occurrences@ + rows::gather(g.occurrences.skip(j as int), rows::pick(q))
                == rows::keep(g.occurrences, q),
        decreases graph.occurrences.len() - j,
    {
        let ghost before = occurrences@;
        proof {
            rows::lemma_gather_step(g.occurrences, rows::pick(q), occurrences@, j as int);
        }
        if !test_dead(graph, &linked, graph.occurrences[j].record_id) {
            occurrences.push(graph.occurrences[j]);
        }
        assert(occurrences@ =~= before + rows::pick(q)(g.occurrences[j as int]));
        j = j + 1;
    }
    let mut relations: Vec<RelationRow> = Vec::new();
    let mut m: usize = 0;
    proof {
        rows::lemma_gather_end(g.occurrences, rows::pick(q), occurrences@);
        rows::lemma_gather_start(g.relations, rows::pick(t));
    }
    while m < graph.relations.len()
        invariant
            graph.wf(),
            g == graph@,
            linked@.len() == g.records.len(),
            forall|k: int|
                0 <= k < linked@.len() ==> #[trigger] linked@[k] == is_linked(
                    g,
                    g.records[k].id,
                ),
            t == (|r: RelationRow| !is_dead_relation(g, r)),
            m <= graph.relations.len(),
            relations@ + rows::gather(g.relations.skip(m as int), rows::pick(t)) == rows::keep(
                g.relations,
                t,
            ),
        decreases graph.relations.len() - m,
    {
        let ghost before = relations@;
        proof {
            rows::lemma_gather_step(g.relations, rows::pick(t), relations@, m as int);
        }
        if !test_dead_relation(graph, &linked, &graph.relations[m]) {
            relations.push(graph.relations[m]);
        }
        assert(relations@ =~= before + rows::pick(t)(g.relations[m as int]));
        m = m + 1;
    }
    proof {
        rows::lemma_gather_end(g.relations, rows::pick(t), relations@);
        db::lemma_ascending_keep(g.records, p);
        db::lemma_names_keep(g.records, p);
        db::lemma_ascending_keep(g.occurrences, q);
    }
    graph.records = records;
    graph.occurrences = occurrences;
    graph.relations = relations;
    assert(graph@ =~= without_dead(g));
}

/// Marks the symbol with the id.
fn mark(graph: &Graph, used: &mut Vec<bool>, id: i64)
    requires
        graph.wf(),
        old(used)@.len() == graph@.symbols.len(),
    ensures
        final(used)@.len() == old(used)@.len(),
        forall|k: int|
            0 <= k < final(used)@.len() ==> #[trigger] final(used)@[k] == (old(used)@[k]
                || graph@.symbols[k].id == id),
{
    let ghost syms = graph@.symbols;
    match find_id(&graph.symbols, id) {
        Some(at) => {
            used.set(at, true);
            proof {
                assert(syms[at as int].id == id);
                assert forall|k: int| 0 <= k < used@.len() implies #[trigger] used@[k] == (
                old(used)@[k] || syms[k].id == id) by {
                    if k < at {
                        assert(syms[k].rid() < syms[at as int].rid());
                    } else if at < k {
                        assert(syms[at as int].rid() < syms[k].rid());
                    }
                }
            }
        },
        None => {
            proof {
                assert forall|k: int| 0 <= k < used@.len() implies #[trigger] used@[k] == (
                old(used)@[k] || syms[k].id == id) by {
                    assert(!db::has_id_at(syms, id, k));
                }
            }
        },
    }
}

/// Tells of each symbol whether it is used.
fn find_used(graph: &Graph) -> (r: Vec<bool>)
    requires
        graph.wf(),
    ensures
        r@.len() == graph@.symbols.len(),
        forall|k: int|
            0 <= k < r@.len() ==> #[trigger] r@[k] == is_used(graph@, graph@.symbols[k].id),
{
    let ghost syms = graph@.symbols;
    let ghost occs = graph@.occurrences;
    let ghost rels = graph@.relations;
    let mut r: Vec<bool> = Vec::new();
    let mut i: usize = 0;
    while i < graph.symbols.len()
        invariant
            i <= graph.symbols.len(),
            r@.len() == i,
            forall|k: int| 0 <= k < i ==> !#[trigger] r@[k],
        decreases graph.symbols.len() - i,
    {
        r.push(false);
        i = i + 1;
    }
    let mut j: usize = 0;
    while j < graph.occurrences.len()
        invariant
            graph.wf(),
            syms == graph@.symbols,
            occs == graph.occurrences@,
            j <= occs.len(),
            r@.len() == syms.len(),
            forall|k: int|
                0 <= k < r@.len() ==> (#[trigger] r@[k] <==> exists|m: int|
                    0 <= m < j && (#[trigger] occs[m]).symbol_id == syms[k].id),
        decreases occs.len() - j,
    {
        let ghost before = r@;
        mark(graph, &mut r, graph.occurrences[j].symbol_id);
        proof {
            assert forall|k: int| 0 <= k < r@.len() implies (#[trigger] r@[k] <==> exists|m: int|
                0 <= m < j + 1 && (#[trigger] occs[m]).symbol_id == syms[k].id) by {
                if before[k] {
                    let m = choose|m: int|
                        0 <= m < j && (#[trigger] occs[m]).symbol_id == syms[k].id;
                    assert(occs[m].symbol_id == syms[k].id);
                } else if r@[k] {
                    assert(occs[j as int].symbol_id == syms[k].id);
                }
            }
        }
        j = j + 1;
    }
    let mut n: usize = 0;
    while n < graph.relations.len()
        invariant
            graph.wf(),
            syms == graph@.symbols,
            occs == graph.occurrences@,
            rels == graph.relations@,
            n <= rels.len(),
            r@.len() == syms.len(),
            forall|k: int|
                0 <= k < r@.len() ==> (#[trigger] r@[k] <==> ((exists|m: int|
                    0 <= m < occs.len() && (#[trigger] occs[m]).symbol_id == syms[k].id) || (
                exists|m: int| 0 <= m < n && (#[trigger] rels[m]).symbol_id == syms[k].id))),
        decreases rels.len() - n,
    {
        let ghost before = r@;
        mark(graph, &mut r, graph.relations[n].symbol_id);
        proof {
            assert forall|k: int| 0 <= k < r@.len() implies (#[trigger] r@[k] <==> ((exists|
                m: int,
            |
                0 <= m < occs.len() && (#[trigger] occs[m]).symbol_id == syms[k].id) || (exists|
                m: int,
            |
                0 <= m < n + 1 && (#[trigger] rels[m]).symbol_id == syms[k].id))) by {
                if before[k] {
                    if !(exists|m: int|
                        0 <= m < occs.len() && (#[trigger] occs[m]).symbol_id == syms[k].id) {
                        let m = choose|m: int|
                            0 <= m < n && (#[trigger] rels[m]).symbol_id == syms[k].id;
                        assert(rels[m].symbol_id == syms[k].id);
                    }
                } else if r@[k] {
                    assert(rels[n as int].symbol_id == syms[k].id);
                }
            }
        }
        n = n + 1;
    }
    r
}

/// Removes symbols that are not used.
fn remove_unused(graph: &mut Graph)
    requires
        old(graph).wf(),
    ensures
        final(graph).wf(),
        final(graph)@ == without_unused(old(graph)@),
{
    let ghost g = graph@;
    let used = find_used(graph);
    let ghost p = |s: SymbolV| is_used(g, s.id);
    let mut symbols: Vec<SymbolRow> = Vec::new();
    let mut i: usize = 0;
    proof {
        assert(db::values(symbols@) =~= Seq::<SymbolV>::empty());
        rows::lemma_gather_start(g.symbols, rows::pick(p));
    }
    while i < graph.symbols.len()
        invariant
            graph.wf(),
            g == graph@,
            g.symbols.len() == graph.symbols.len(),
            used@.len() == g.symbols.len(),
            forall|k: int|
                0 <= k < used@.len() ==> #[trigger] used@[k] == is_used(g, g.symbols[k].id),
            p == (|s: SymbolV| is_used(g, s.id)),
            i <= graph.symbols.len(),
            db::values(symbols@) + rows::gather(g.symbols.skip(i as int), rows::pick(p))
                == rows::keep(g.symbols, p),
        decreases graph.symbols.len() - i,
    {
        let ghost before = symbols@;
        proof {
            rows::lemma_gather_step(g.symbols, rows::pick(p), db::values(symbols@), i as int);
            assert(g.symbols[i as int] == graph.symbols@[i as int]@);
        }
        if used[i] {
            symbols.push(graph.symbols[i].copied());
        }
        assert(db::values(symbols@) =~= db::values(before) + rows::pick(p)(
            g.symbols[i as int],
        ));
        i = i + 1;
    }
    proof {
        rows::lemma_gather_end(g.symbols, rows::pick(p), db::values(symbols@));
        db::lemma_ascending_keep(g.symbols, p);
        db::lemma_names_keep(g.symbols, p);
    }
    graph.symbols = symbols;
    assert(graph@ =~= without_unused(g));
}

/// Removes what no unit is made of any more: records, their occurrences, the
/// relations of those and symbols that are not used.
pub fn gc(graph: &mut Graph)
    requires
        old(graph).wf(),
    ensures
        final(graph).wf(),
        final(graph)@ == collected(old(graph)@),
{
    remove_dead(graph);
    remove_unused(graph);
}

// ---- what has to be read ------------------------------------------------

/// Whether `s` has a record of the name.
pub open spec fn has_dep(s: Seq<RecordDepV>, name: Seq<char>) -> bool {
    exists|i: int| 0 <= i < s.len() && (#[trigger] s[i]).name == name
}

/// The records among `deps` that the graph does not have, each name once.
pub open spec fn new_records(g: GraphV, deps: Seq<RecordDepV>) -> Seq<RecordDepV>
    decreases deps.len(),
{
    if deps.len() == 0 {
        Seq::empty()
    } else {
        let before = new_records(g, deps.drop_last());
        let d = deps.last();
        if db::by_name(g.records, d.name) is Some || has_dep(before, d.name) {
            before
        } else {
            before.push(d)
        }
    }
}

/// What a unit adds to the records that units are made of. One whose main file
/// is not there any more adds none.
pub open spec fn deps_to_add(missing: Seq<Seq<char>>) -> spec_fn(UnitDataV) -> Seq<RecordDepV> {
    |u: UnitDataV|
        if plan::main_missing(u, missing) {
            Seq::empty()
        } else {
            u.deps
        }
}

/// The records that units are made of, one unit after the other.
pub open spec fn all_deps(units: Seq<UnitDataV>, missing: Seq<Seq<char>>) -> Seq<RecordDepV> {
    rows::gather(units, deps_to_add(missing))
}

/// The records that have to be read for the units: those that the graph does
/// not have, each once. Nothing of a unit whose main file is missing has to be
/// read.
pub fn records_to_read(
    graph: &Graph,
    units: &Vec<UnitData>,
    missing_sources: &Vec<String>,
) -> (r: Vec<RecordDep>)
    requires
        graph.wf(),
    ensures
        r@.map_values(|d: RecordDep| d@) == new_records(
            graph@,
            all_deps(
                units@.map_values(|u: UnitData| u@),
                text::texts(missing_sources@),
            ),
        ),
{
    let mut known = match index_rows(&graph.records) {
        Some(m) => m,
        None => StringHashMap::new(),
    };
    let ghost view = |d: RecordDep| d@;
    let ghost paths = text::texts(missing_sources@);
    let ghost f = deps_to_add(paths);
    let gone = plan::texts_index(missing_sources);
    let ghost us = units@.map_values(|u: UnitData| u@);
    let mut out: Vec<RecordDep> = Vec::new();
    let mut i: usize = 0;
    let ghost mut done: Seq<RecordDepV> = Seq::empty();
    proof {
        rows::lemma_gather_start(us, f);
        assert(out@.map_values(view) =~= new_records(graph@, done));
        assert forall|name: Seq<char>| #[trigger] known@.contains_key(name) <==> (db::by_name(
            graph@.records,
            name,
        ) is Some || has_dep(out@.map_values(view), name)) by {
            db::lemma_indexes(known@, graph@.records, name);
        }
    }
    while i < units.len()
        invariant
            view == (|d: RecordDep| d@),
            f == deps_to_add(paths),
            forall|t: Seq<char>| #[trigger] gone@.contains_key(t) <==> paths.contains(t),
            us == units@.map_values(|u: UnitData| u@),
            i <= units.len(),
            done + rows::gather(us.skip(i as int), f) == rows::gather(us, f),
            out@.map_values(view) == new_records(graph@, done),
            forall|name: Seq<char>| #[trigger]
                known@.contains_key(name) <==> (db::by_name(graph@.records, name) is Some
                    || has_dep(out@.map_values(view), name)),
        decreases units.len() - i,
    {
        let ghost start = done;
        let ghost deps = us[i as int].deps;
        proof {
            rows::lemma_gather_step(us, f, done, i as int);
        }
        if plan::test_main_missing(&gone, &units[i]) {
            proof {
                assert(plan::main_missing(us[i as int], paths));
                assert(done + f(us[i as int]) =~= done);
            }
            i = i + 1;
            continue;
        }
        proof {
            assert(!plan::main_missing(us[i as int], paths));
            assert(deps == units@[i as int].deps@.map_values(view));
            assert(done =~= start + deps.take(0));
        }
        let mut j: usize = 0;
        while j < units[i].deps.len()
            invariant
                view == (|d: RecordDep| d@),
                i < units.len(),
                deps == units@[i as int].deps@.map_values(view),
                j <= units@[i as int].deps@.len(),
                done == start + deps.take(j as int),
                out@.map_values(view) == new_records(graph@, done),
                forall|name: Seq<char>| #[trigger]
                    known@.contains_key(name) <==> (db::by_name(graph@.records, name) is Some
                        || has_dep(out@.map_values(view), name)),
            decreases units@[i as int].deps@.len() - j,
        {
            let d = &units[i].deps[j];
            let ghost o = out@.map_values(view);
            let ghost k = known@;
            proof {
                let next = start + deps.take(j + 1);
                assert(next.drop_last() =~= done);
                assert(next.last() == d@);
                done = next;
            }
            if !known.contains_key(d.name.as_str()) {
                known.insert(d.name.clone(), 0);
                let copy = RecordDep {
                    name: d.name.clone(),
                    file_path: d.file_path.clone(),
                    is_system: d.is_system,
                };
                out.push(copy);
                proof {
                    assert(out@.map_values(view) =~= o.push(d@));
                    let o2 = out@.map_values(view);
                    assert forall|name: Seq<char>| #[trigger] known@.contains_key(name) <==> (
                    db::by_name(graph@.records, name) is Some || has_dep(o2, name)) by {
                        if name == d@.name {
                            assert(o2[o.len() as int].name == name);
                        } else {
                            assert(k.contains_key(name) <==> (db::by_name(
                                graph@.records,
                                name,
                            ) is Some || has_dep(o, name)));
                            if has_dep(o, name) {
                                let m = choose|m: int|
                                    0 <= m < o.len() && (#[trigger] o[m]).name == name;
                                assert(o2[m].name == name);
                            }
                            if has_dep(o2, name) {
                                let m = choose|m: int|
                                    0 <= m < o2.len() && (#[trigger] o2[m]).name == name;
                                assert(o[m].name == name);
                            }
                        }
                    }
                }
            }
            j = j + 1;
        }
        assert(deps.take(j as int) =~= deps);
        i = i + 1;
    }
    proof {
        rows::lemma_gather_end(us, f, done);
    }
    out
}

// ---- merge --------------------------------------------------------------

/// Brings the graph to what the store says. With `full`, the graph is emptied
/// first. Where the merge fails, the graph stays as it was. After one that does
/// not, no unit of the graph has a main file that is missing, where the graph had
/// the main files of its units.
///
/// How long it took is for the caller to add.
pub fn merge(graph: &mut Graph, snapshot: &Snapshot, full: bool) -> (r: Result<
    MergeStats,
    MergeError,
>)
    requires
        old(graph).wf(),
    ensures
        final(graph).wf(),
        match r {
            Ok(stats) => merged(old(graph)@, snapshot@, full) == Ok::<Progress, MergeErrorV>(
                Progress { graph: final(graph)@, stats },
            ),
            Err(e) => merged(old(graph)@, snapshot@, full) == Err::<Progress, MergeErrorV>(e@)
                && final(graph)@ == old(graph)@,
        },
        r is Ok && presence::mains_known(base(old(graph)@, full)) ==> presence::mains_there(
            final(graph)@,
            snapshot@.missing_sources,
        ),
{
    let start = if full {
        Graph::new()
    } else {
        graph.copied()
    };
    let ghost g0 = start@;
    let ghost snap = snapshot@;
    let todo = plan::plan(&start, &snapshot.listing, &snapshot.missing_sources);
    let mut m = Merger::new(start);
    let mut stats = MergeStats::default();
    stats.units_total = snapshot.listing.len();
    let mut i: usize = 0;
    assert(todo.remove@.skip(0) =~= todo.remove@);
    while i < todo.remove.len()
        invariant
            m.inv(),
            i <= todo.remove.len(),
            stats == (MergeStats {
                units_total: snapshot.listing@.len() as usize,
                units_removed: i,
                ..no_stats()
            }),
            without_units(g0, todo.remove@) == without_units(
                m.graph@,
                todo.remove@.skip(i as int),
            ),
        decreases todo.remove.len() - i,
    {
        assert(todo.remove@.skip(i as int).drop_first() =~= todo.remove@.skip(i + 1));
        m.remove_unit(todo.remove[i]);
        stats.units_removed = stats.units_removed + 1;
        i = i + 1;
    }
    assert(stats == start_stats(g0, snap));
    let unit_places = index_readings(&snapshot.units);
    let record_places = index_readings(&snapshot.records);
    let gone = plan::texts_index(&snapshot.missing_sources);
    let ghost begun = Progress { graph: m.graph@, stats };
    let ghost list = store::stamps(todo.read@);
    let ghost units = store::readings(snapshot.units@);
    let ghost records = store::readings(snapshot.records@);
    proof {
        assert(units =~= snap.units);
        assert(records =~= snap.records);
        assert(list.skip(0) =~= list);
    }
    let mut j: usize = 0;
    while j < todo.read.len()
        invariant
            m.inv(),
            graph@ == old(graph)@,
            old(graph).wf(),
            graph.wf(),
            snap == snapshot@,
            g0 == base(old(graph)@, full),
            begun.graph == without_units(g0, plan::units_to_drop(g0, snap.listing, snap.missing_sources)),
            begun.stats == start_stats(g0, snap),
            list == store::stamps(todo.read@),
            list == plan::units_to_read(g0, snap.listing, snap.missing_sources),
            units == store::readings(snapshot.units@),
            records == store::readings(snapshot.records@),
            units == snap.units,
            records == snap.records,
            store::leads(unit_places@, units),
            store::leads(record_places@, records),
            snap.missing_sources == text::texts(snapshot.missing_sources@),
            forall|t: Seq<char>| #[trigger]
                gone@.contains_key(t) <==> snap.missing_sources.contains(t),
            j <= todo.read.len(),
            after_units(begun, list, units, records, snap.missing_sources) == after_units(
                Progress { graph: m.graph@, stats },
                list.skip(j as int),
                units,
                records,
                snap.missing_sources,
            ),
        decreases todo.read.len() - j,
    {
        let s = &todo.read[j];
        assert(list.skip(j as int)[0] == s@);
        assert(list.skip(j as int).drop_first() =~= list.skip(j + 1));
        match find_reading(&snapshot.units, &unit_places, s.name.as_str()) {
            Some(data) => {
                let skip = plan::test_main_missing(&gone, data);
                assert(skip == plan::main_missing(data@, snap.missing_sources));
                if skip {
                    m.remove_named(&s.name);
                } else {
                    match m.process_unit(s, data, &snapshot.records, &record_places, &mut stats) {
                        Ok(()) => {},
                        Err(e) => {
                            return Err(e);
                        },
                    }
                }
            },
            None => {
                return Err(MergeError::Unit { name: s.name.clone() });
            },
        }
        if stats.units_processed == usize::MAX {
            return Err(MergeError::Full);
        }
        stats.units_processed = stats.units_processed + 1;
        j = j + 1;
    }
    assert(list.skip(j as int).len() == 0);
    let mut made = m.graph;
    if stats.units_removed > 0 || stats.units_processed > 0 {
        gc(&mut made);
    }
    proof {
        if presence::mains_known(g0) {
            presence::law_merge_leaves_no_unit_without_its_main_file(old(graph)@, snap, full);
        }
    }
    *graph = made;
    Ok(stats)
}

} // verus!
