//! What holds of merges as wholes.
use vstd::prelude::*;

use crate::db::{self, GraphV, HasId, LinkRow, OccRow, RecordV, RelationRow, SymbolV, UnitV};
use crate::ffi::{OccurrenceV, RecordDepV, SymInfoV};
use crate::growth;
use crate::merge::{self, MergeErrorV, MergeStats, Progress};
use crate::mirror::{self, Records, Units};
use crate::plan;
use crate::presence;
use crate::rows;
use crate::store::{self, RecordDataV, SnapshotV, StampV, UnitDataV};

verus! {

// ---- the plan -----------------------------------------------------------

/// A unit of the graph is removed exactly where it has to be.
pub proof fn lemma_drops(
    g: GraphV,
    listing: Seq<StampV>,
    missing: Seq<Seq<char>>,
    u: UnitV,
)
    requires
        g.keyed(),
        g.units.contains(u),
    ensures
        plan::units_to_drop(g, listing, missing).contains(u.id) <==> plan::to_drop(
            g,
            listing,
            missing,
            u,
        ),
{
    let f = plan::pick_drop(g, listing, missing);
    rows::lemma_gather_members(g.units, f, u.id);
    if exists|i: int| 0 <= i < g.units.len() && f(#[trigger] g.units[i]).contains(u.id) {
        let i = choose|i: int| 0 <= i < g.units.len() && f(#[trigger] g.units[i]).contains(u.id);
        let v = g.units[i];
        assert(plan::to_drop(g, listing, missing, v));
        assert(v.id == u.id);
        assert(g.units.contains(v));
        growth::lemma_by_id_member(g.units, u);
        growth::lemma_by_id_member(g.units, v);
    }
    if plan::to_drop(g, listing, missing, u) {
        let i = choose|i: int| 0 <= i < g.units.len() && g.units[i] == u;
        assert(f(g.units[i]) == seq![u.id]);
        assert(f(g.units[i])[0] == u.id);
        assert(f(g.units[i]).contains(u.id));
    }
}

/// A unit of the store is read exactly where it has to be.
pub proof fn lemma_reads(g: GraphV, listing: Seq<StampV>, missing: Seq<Seq<char>>, s: StampV)
    ensures
        plan::units_to_read(g, listing, missing).contains(s) <==> listing.contains(s)
            && plan::to_read(g, missing, s),
{
    let f = plan::pick_read(g, missing);
    rows::lemma_gather_members(listing, f, s);
    if exists|i: int| 0 <= i < listing.len() && f(#[trigger] listing[i]).contains(s) {
        let i = choose|i: int| 0 <= i < listing.len() && f(#[trigger] listing[i]).contains(s);
        assert(listing[i] == s);
    }
    if listing.contains(s) && plan::to_read(g, missing, s) {
        let i = choose|i: int| 0 <= i < listing.len() && listing[i] == s;
        assert(f(listing[i])[0] == s);
        assert(f(listing[i]).contains(s));
    }
}

/// Removing units.
proof fn lemma_without_units(g: GraphV, ids: Seq<i64>)
    requires
        growth::sound(g),
    ensures
        ({
            let b = merge::without_units(g, ids);
            &&& growth::sound(b)
            &&& growth::grown(g, b)
            &&& b == (GraphV { units: b.units, links: b.links, ..g })
            &&& forall|u: UnitV| #[trigger]
                b.units.contains(u) <==> g.units.contains(u) && !ids.contains(u.id)
            &&& forall|id: i64| !ids.contains(id) ==> #[trigger] mirror::same_links(g, b, id)
        }),
    decreases ids.len(),
{
    let b = merge::without_units(g, ids);
    if ids.len() > 0 {
        let g1 = merge::without_unit(g, ids[0]);
        let rest = ids.drop_first();
        mirror::lemma_without_unit(g, ids[0]);
        lemma_without_units(g1, rest);
        growth::lemma_grown_trans(g, g1, b);
        assert forall|id: i64| ids.contains(id) <==> id == ids[0] || #[trigger] rest.contains(
            id,
        ) by {
            if ids.contains(id) {
                let i = choose|i: int| 0 <= i < ids.len() && ids[i] == id;
                if i > 0 {
                    assert(rest[i - 1] == id);
                }
            }
            if rest.contains(id) {
                let i = choose|i: int| 0 <= i < rest.len() && rest[i] == id;
                assert(ids[i + 1] == id);
            }
        }
        assert forall|u: UnitV| #[trigger]
            b.units.contains(u) <==> g.units.contains(u) && !ids.contains(u.id) by {
            assert(g1.units.contains(u) <==> g.units.contains(u) && u.id != ids[0]);
            assert(ids.contains(u.id) <==> u.id == ids[0] || rest.contains(u.id));
        }
        assert forall|id: i64| !ids.contains(id) implies #[trigger] mirror::same_links(
            g,
            b,
            id,
        ) by {
            assert(ids.contains(id) <==> id == ids[0] || rest.contains(id));
            assert(mirror::same_links(g, g1, id));
            assert(mirror::same_links(g1, b, id));
            assert forall|record_id: i64| #[trigger]
                g.links.contains(LinkRow { unit_id: id, record_id }) <==> b.links.contains(
                    LinkRow { unit_id: id, record_id },
                ) by {
                assert(g1.links.contains(LinkRow { unit_id: id, record_id })
                    <==> b.links.contains(LinkRow { unit_id: id, record_id }));
            }
        }
    }
}

/// The graph from which a merge starts to add, after units were removed.
pub open spec fn pruned(g: GraphV, snap: SnapshotV) -> GraphV {
    merge::without_units(g, plan::units_to_drop(g, snap.listing, snap.missing_sources))
}

/// Whether the numbers of units can be counted, as they can of any graph and
/// listing in memory.
pub open spec fn countable(g: GraphV, snap: SnapshotV) -> bool {
    g.units.len() <= usize::MAX && snap.listing.len() <= usize::MAX
}

proof fn lemma_plan_len(g: GraphV, snap: SnapshotV)
    ensures
        plan::units_to_drop(g, snap.listing, snap.missing_sources).len() <= g.units.len(),
        plan::units_to_read(g, snap.listing, snap.missing_sources).len() <= snap.listing.len(),
{
    rows::lemma_gather_len(g.units, plan::pick_drop(g, snap.listing, snap.missing_sources));
    rows::lemma_gather_len(snap.listing, plan::pick_read(g, snap.missing_sources));
}

// ---- what is counted ----------------------------------------------------

/// What a merge has made before it removes what is left over.
pub open spec fn filled(g: GraphV, snap: SnapshotV, full: bool) -> Result<Progress, MergeErrorV> {
    let a = merge::base(g, full);
    merge::after_units(
        Progress { graph: pruned(a, snap), stats: merge::start_stats(a, snap) },
        plan::units_to_read(a, snap.listing, snap.missing_sources),
        snap.units,
        snap.records,
        snap.missing_sources,
    )
}

/// What a unit of the store adds to the records that units are made of.
pub open spec fn pick_deps(
    units_read: Seq<UnitDataV>,
    missing: Seq<Seq<char>>,
) -> spec_fn(StampV) -> Seq<RecordDepV> {
    |s: StampV|
        match store::first_named(units_read, s.name) {
            Some(data) => merge::deps_to_add(missing)(data),
            None => Seq::empty(),
        }
}

/// The records that the units of the list are made of, but for units whose main
/// file is missing.
pub open spec fn deps_of(
    list: Seq<StampV>,
    units_read: Seq<UnitDataV>,
    missing: Seq<Seq<char>>,
) -> Seq<RecordDepV> {
    rows::gather(list, pick_deps(units_read, missing))
}

/// Whether the numbers of `q` are those of `p` after records were counted.
pub open spec fn counted(p: Progress, q: Progress, deps: nat) -> bool {
    &&& q.stats.units_total == p.stats.units_total
    &&& q.stats.units_processed == p.stats.units_processed
    &&& q.stats.units_removed == p.stats.units_removed
    &&& q.stats.elapsed_ms == p.stats.elapsed_ms
    &&& q.stats.records_ingested + q.stats.records_reused == p.stats.records_ingested
        + p.stats.records_reused + deps
    &&& q.stats.records_ingested - p.stats.records_ingested == q.graph.records.len()
        - p.graph.records.len()
    &&& q.stats.occurrences_added - p.stats.occurrences_added == q.graph.occurrences.len()
        - p.graph.occurrences.len()
}

pub proof fn lemma_relations_len(g: GraphV, occ_id: i64, rels: Seq<(u64, SymInfoV)>)
    requires
        merge::with_relations(g, occ_id, rels) is Some,
    ensures
        ({
            let b = merge::with_relations(g, occ_id, rels).unwrap();
            &&& b.occurrences == g.occurrences
            &&& b.records == g.records
            &&& b.units == g.units
            &&& b.files == g.files
        }),
    decreases rels.len(),
{
    if rels.len() > 0 {
        let g1 = merge::with_relation(g, occ_id, rels[0].0, rels[0].1).unwrap();
        lemma_relations_len(g1, occ_id, rels.drop_first());
    }
}

pub proof fn lemma_occurrences_len(g: GraphV, record_id: i64, occs: Seq<OccurrenceV>)
    requires
        merge::with_occurrences(g, record_id, occs) is Some,
    ensures
        ({
            let b = merge::with_occurrences(g, record_id, occs).unwrap();
            &&& b.occurrences.len() == g.occurrences.len() + occs.len()
            &&& b.records == g.records
            &&& b.units == g.units
            &&& b.files == g.files
        }),
    decreases occs.len(),
{
    if occs.len() > 0 {
        let (g1, id) = merge::with_bare_occurrence(g, record_id, occs[0]).unwrap();
        lemma_relations_len(g1, id, occs[0].relations);
        let g2 = merge::with_occurrence(g, record_id, occs[0]).unwrap();
        lemma_occurrences_len(g2, record_id, occs.drop_first());
    }
}

pub proof fn lemma_deps_counted(
    p: Progress,
    unit_id: i64,
    unit: Seq<char>,
    deps: Seq<RecordDepV>,
    read: Seq<RecordDataV>,
)
    requires
        merge::after_deps(p, unit_id, unit, deps, read) is Ok,
    ensures
        counted(p, merge::after_deps(p, unit_id, unit, deps, read)->Ok_0, deps.len()),
    decreases deps.len(),
{
    if deps.len() > 0 {
        let p1 = merge::after_dep(p, unit_id, unit, deps[0], read)->Ok_0;
        if db::by_name(p.graph.records, deps[0].name) is None {
            let data = store::first_named(read, deps[0].name).unwrap();
            let (g1, id) = merge::with_bare_record(
                p.graph,
                deps[0].name,
                deps[0].file_path,
            ).unwrap();
            lemma_occurrences_len(g1, id, data.occurrences);
        }
        assert(counted(p, p1, 1));
        lemma_deps_counted(p1, unit_id, unit, deps.drop_first(), read);
    }
}

proof fn lemma_units_counted(
    p: Progress,
    list: Seq<StampV>,
    units_read: Seq<UnitDataV>,
    read: Seq<RecordDataV>,
    missing: Seq<Seq<char>>,
)
    requires
        merge::after_units(p, list, units_read, read, missing) is Ok,
    ensures
        ({
            let q = merge::after_units(p, list, units_read, read, missing)->Ok_0;
            &&& q.stats.units_processed == p.stats.units_processed + list.len()
            &&& counted(
                p,
                Progress {
                    graph: q.graph,
                    stats: MergeStats { units_processed: p.stats.units_processed, ..q.stats },
                },
                deps_of(list, units_read, missing).len(),
            )
        }),
    decreases list.len(),
{
    if list.len() > 0 {
        let s = list[0];
        let data = store::first_named(units_read, s.name).unwrap();
        if !plan::main_missing(data, missing) {
            let (g, id) = merge::with_bare_unit(p.graph, s, data).unwrap();
            lemma_deps_counted(
                Progress { graph: g, stats: p.stats },
                id,
                s.name,
                data.deps,
                read,
            );
        }
        lemma_deps_of_first(list, units_read, missing);
        let p1 = merge::after_unit(p, s, units_read, read, missing)->Ok_0;
        let p2 = Progress {
            graph: p1.graph,
            stats: MergeStats {
                units_processed: (p1.stats.units_processed + 1) as usize,
                ..p1.stats
            },
        };
        lemma_units_counted(p2, list.drop_first(), units_read, read, missing);
    }
}

/// The numbers of a merge are: the units that the store lists, those that were
/// read, those that were removed, the records that were added, those that were
/// used again, the sum of these two being how often a unit that was read and
/// whose main file is there is made of a record, and the occurrences that were
/// added.
pub proof fn law_merge_counts(g: GraphV, snap: SnapshotV, full: bool)
    requires
        countable(merge::base(g, full), snap),
        merge::merged(g, snap, full) is Ok,
    ensures
        ({
            let a = merge::base(g, full);
            let stats = merge::merged(g, snap, full)->Ok_0.stats;
            let list = plan::units_to_read(a, snap.listing, snap.missing_sources);
            let b = filled(g, snap, full)->Ok_0.graph;
            &&& stats.units_total == snap.listing.len()
            &&& stats.units_processed == list.len()
            &&& stats.units_removed == plan::units_to_drop(
                a,
                snap.listing,
                snap.missing_sources,
            ).len()
            &&& stats.records_ingested + stats.records_reused == deps_of(list, snap.units, snap.missing_sources).len()
            &&& stats.records_ingested == b.records.len() - a.records.len()
            &&& stats.occurrences_added == b.occurrences.len() - a.occurrences.len()
            &&& stats.elapsed_ms == 0
        }),
{
    let a = merge::base(g, full);
    lemma_plan_len(a, snap);
    lemma_pruned_tables(a, plan::units_to_drop(a, snap.listing, snap.missing_sources));
    lemma_units_counted(
        Progress { graph: pruned(a, snap), stats: merge::start_stats(a, snap) },
        plan::units_to_read(a, snap.listing, snap.missing_sources),
        snap.units,
        snap.records,
        snap.missing_sources,
    );
}

pub proof fn lemma_pruned_tables(g: GraphV, ids: Seq<i64>)
    ensures
        ({
            let b = merge::without_units(g, ids);
            b == (GraphV { units: b.units, links: b.links, ..g })
        }),
    decreases ids.len(),
{
    if ids.len() > 0 {
        lemma_pruned_tables(merge::without_unit(g, ids[0]), ids.drop_first());
    }
}

// ---- what every merge keeps ---------------------------------------------

/// A merge keeps the keys of the graph and leaves no loose ends, and no unit
/// whose main file is missing. Where the graph had neither records that no unit
/// is made of nor idle symbols, it has none afterwards.
pub proof fn law_merge_keeps_the_graph_sound(g: GraphV, snap: SnapshotV, full: bool)
    requires
        growth::sound(merge::base(g, full)),
        countable(merge::base(g, full), snap),
        merge::merged(g, snap, full) is Ok,
    ensures
        ({
            let a = merge::base(g, full);
            let b = merge::merged(g, snap, full)->Ok_0.graph;
            &&& growth::sound(b)
            &&& presence::mains_there(b, snap.missing_sources)
            &&& mirror::all_linked(a) ==> mirror::all_linked(b)
            &&& growth::all_used(a) ==> growth::all_used(b)
        }),
{
    let a = merge::base(g, full);
    assert forall|u: UnitV| #[trigger] a.units.contains(u) implies (u.main_file_id matches Some(
        id,
    ) ==> db::by_id(a.files, id) is Some) by {
        let i = choose|i: int| 0 <= i < a.units.len() && a.units[i] == u;
        assert(a.units[i].main_file_id == u.main_file_id);
    }
    presence::law_merge_leaves_no_unit_without_its_main_file(g, snap, full);
    let g1 = pruned(a, snap);
    let list = plan::units_to_read(a, snap.listing, snap.missing_sources);
    let p0 = Progress { graph: g1, stats: merge::start_stats(a, snap) };
    lemma_without_units(a, plan::units_to_drop(a, snap.listing, snap.missing_sources));
    if growth::all_used(a) {
        growth::lemma_all_used_same(a, g1);
    }
    mirror::lemma_after_units(
        p0,
        list,
        snap.units,
        snap.records,
        snap.missing_sources,
        Map::empty(),
        Map::empty(),
    );
    let p = merge::after_units(p0, list, snap.units, snap.records, snap.missing_sources)->Ok_0;
    if p.stats.units_removed > 0 || p.stats.units_processed > 0 {
        mirror::law_gc_removes_what_is_left_over(p.graph);
    } else {
        law_merge_counts(g, snap, full);
        assert(p.graph == a);
    }
}

// ---- the image of the store ---------------------------------------------

/// Whether the listing is that of the store: each unit once, with its time.
pub open spec fn lists(listing: Seq<StampV>, units: Units) -> bool {
    &&& db::names_differ(listing)
    &&& mirror::stamps_true(listing, units)
    &&& forall|name: Seq<char>| #[trigger]
        units.contains_key(name) ==> exists|i: int| db::has_name_at(listing, name, i)
}

/// Whether the graph says the truth of each unit that it has with the time of
/// the store.
pub open spec fn current_true(g: GraphV, units: Units) -> bool {
    forall|i: int|
        0 <= i < g.units.len() && units.contains_key((#[trigger] g.units[i]).name)
            && units[g.units[i].name].mtime_ns == g.units[i].mtime_ns ==> mirror::unit_true(
            g,
            g.units[i],
            units[g.units[i].name],
        )
}

/// Whether a unit of the store is one of the graph whose main file is not there
/// any more.
pub open spec fn gone(g: GraphV, missing: Seq<Seq<char>>, name: Seq<char>) -> bool {
    match db::by_name(g.units, name) {
        Some(u) => plan::source_gone(g, missing, u),
        None => false,
    }
}

/// What a merge needs to bring the graph to what the store says: the listing and
/// the readings are those of the store, and the graph is right of the records
/// that it has and of the units that did not change.
pub open spec fn faithful(
    g: GraphV,
    snap: SnapshotV,
    units: Units,
    records: Records,
) -> bool {
    &&& growth::sound(g)
    &&& countable(g, snap)
    &&& lists(snap.listing, units)
    &&& mirror::readings_true(snap.units, snap.records, units, records)
    &&& mirror::records_true(g, records)
    &&& current_true(g, units)
}

proof fn lemma_pruned_true(g: GraphV, snap: SnapshotV, units: Units, records: Records)
    requires
        faithful(g, snap, units, records),
    ensures
        ({
            let a = pruned(g, snap);
            let list = plan::units_to_read(g, snap.listing, snap.missing_sources);
            &&& growth::sound(a)
            &&& mirror::records_true(a, records)
            &&& mirror::stamps_true(list, units)
            &&& mirror::true_or_listed(a, list, units)
        }),
{
    let ids = plan::units_to_drop(g, snap.listing, snap.missing_sources);
    let a = pruned(g, snap);
    let list = plan::units_to_read(g, snap.listing, snap.missing_sources);
    lemma_without_units(g, ids);
    mirror::lemma_records_true_grown(g, a, records);
    assert forall|i: int| 0 <= i < list.len() implies units.contains_key(
        (#[trigger] list[i]).name,
    ) && units[list[i].name].mtime_ns == list[i].mtime_ns by {
        let s = list[i];
        assert(list.contains(s));
        lemma_reads(g, snap.listing, snap.missing_sources, s);
        let k = choose|k: int| 0 <= k < snap.listing.len() && snap.listing[k] == s;
        assert(units.contains_key(snap.listing[k].name));
    }
    assert forall|u: UnitV| #[trigger] a.units.contains(u) implies (units.contains_key(u.name)
        && mirror::unit_true(a, u, units[u.name])) || (exists|i: int|
        db::has_name_at(list, u.name, i)) by {
        lemma_drops(g, snap.listing, snap.missing_sources, u);
        let k = choose|k: int| db::has_name_at(snap.listing, u.name, k);
        assert(db::has_name_at(snap.listing, u.name, k));
        let s = snap.listing[k];
        assert(snap.listing.contains(s));
        growth::lemma_by_name_member(g.units, u);
        if s.mtime_ns == u.mtime_ns {
            let j = choose|j: int| 0 <= j < g.units.len() && g.units[j] == u;
            assert(mirror::unit_true(g, g.units[j], units[u.name]));
            assert(mirror::same_links(g, a, u.id));
            mirror::lemma_unit_true_same(g, a, u, units[u.name]);
        } else {
            assert(plan::to_read(g, snap.missing_sources, s));
            lemma_reads(g, snap.listing, snap.missing_sources, s);
            let j = choose|j: int| 0 <= j < list.len() && list[j] == s;
            assert(db::has_name_at(list, u.name, j));
        }
    }
}

/// Which units the graph has after a merge.
proof fn lemma_units_after(
    g: GraphV,
    snap: SnapshotV,
    units: Units,
    records: Records,
    b: GraphV,
    name: Seq<char>,
)
    requires
        faithful(g, snap, units, records),
        merge::after_units(
            Progress { graph: pruned(g, snap), stats: merge::start_stats(g, snap) },
            plan::units_to_read(g, snap.listing, snap.missing_sources),
            snap.units,
            snap.records,
            snap.missing_sources,
        ) is Ok,
        db::by_name(b.units, name) is Some <==> presence::has_after(
            pruned(g, snap),
            plan::units_to_read(g, snap.listing, snap.missing_sources),
            snap.units,
            snap.missing_sources,
            name,
        ),
    ensures
        db::by_name(b.units, name) is Some <==> units.contains_key(name) && !gone(
            g,
            snap.missing_sources,
            name,
        ) && !plan::main_missing(units[name].data, snap.missing_sources),
{
    let missing = snap.missing_sources;
    let a = pruned(g, snap);
    let list = plan::units_to_read(g, snap.listing, missing);
    lemma_without_units(g, plan::units_to_drop(g, snap.listing, missing));
    if exists|i: int| db::has_name_at(list, name, i) {
        let i = choose|i: int| db::has_name_at(list, name, i);
        assert(db::has_name_at(list, name, i));
        let s = list[i];
        assert(list.contains(s));
        lemma_reads(g, snap.listing, missing, s);
        let k = choose|k: int| 0 <= k < snap.listing.len() && snap.listing[k] == s;
        assert(units.contains_key(snap.listing[k].name));
        mirror::lemma_listed_read(
            Progress { graph: a, stats: merge::start_stats(g, snap) },
            list,
            snap.units,
            snap.records,
            missing,
            i,
        );
        mirror::lemma_unit_read(s, snap.units, snap.records, units, records);
    } else {
        if db::by_name(a.units, name) is Some {
            growth::lemma_by_name_found(a.units, name);
            let u = db::by_name(a.units, name).unwrap();
            assert(a.units.contains(u));
            lemma_drops(g, snap.listing, missing, u);
            growth::lemma_by_name_member(g.units, u);
            let k = choose|k: int| db::has_name_at(snap.listing, name, k);
            assert(db::has_name_at(snap.listing, name, k));
            let s = snap.listing[k];
            assert(units.contains_key(snap.listing[k].name));
            assert(snap.listing.contains(s));
            lemma_reads(g, snap.listing, missing, s);
            if plan::to_read(g, missing, s) {
                let j = choose|j: int| 0 <= j < list.len() && list[j] == s;
                assert(db::has_name_at(list, name, j));
            }
            let j = choose|j: int| 0 <= j < g.units.len() && g.units[j] == u;
            assert(mirror::unit_true(g, g.units[j], units[name]));
        }
        if units.contains_key(name) && !gone(g, missing, name) {
            let k = choose|k: int| db::has_name_at(snap.listing, name, k);
            assert(db::has_name_at(snap.listing, name, k));
            let s = snap.listing[k];
            assert(snap.listing.contains(s));
            lemma_reads(g, snap.listing, missing, s);
            if plan::to_read(g, missing, s) {
                let j = choose|j: int| 0 <= j < list.len() && list[j] == s;
                assert(db::has_name_at(list, name, j));
            }
            let u = db::by_name(g.units, name).unwrap();
            growth::lemma_by_name_found(g.units, name);
            lemma_drops(g, snap.listing, missing, u);
            assert(a.units.contains(u));
            growth::lemma_by_name_member(a.units, u);
        }
    }
}

/// A merge brings the graph to what the store says. Afterwards the graph has
/// the units of the store, but for those whose main file, as the graph knew it
/// or as the store says, is not there any more. It says of each the time, the main file, the module and the
/// records that the store does, and of each record the occurrences and their
/// relations that the store does.
pub proof fn law_merge_mirrors_the_store(
    g: GraphV,
    snap: SnapshotV,
    full: bool,
    units: Units,
    records: Records,
)
    requires
        faithful(merge::base(g, full), snap, units, records),
        merge::merged(g, snap, full) is Ok,
    ensures
        ({
            let a = merge::base(g, full);
            let b = merge::merged(g, snap, full)->Ok_0.graph;
            &&& growth::sound(b)
            &&& mirror::records_true(b, records)
            &&& mirror::units_true(b, units)
            &&& forall|name: Seq<char>|
                #[trigger] db::by_name(b.units, name) is Some <==> units.contains_key(name)
                    && !gone(a, snap.missing_sources, name) && !plan::main_missing(
                    units[name].data,
                    snap.missing_sources,
                )
        }),
{
    let a = merge::base(g, full);
    let g1 = pruned(a, snap);
    let list = plan::units_to_read(a, snap.listing, snap.missing_sources);
    let p0 = Progress { graph: g1, stats: merge::start_stats(a, snap) };
    lemma_pruned_true(a, snap, units, records);
    mirror::lemma_after_units(
        p0,
        list,
        snap.units,
        snap.records,
        snap.missing_sources,
        units,
        records,
    );
    presence::lemma_units_steps(p0, list, snap.units, snap.records, snap.missing_sources);
    let c = filled(g, snap, full)->Ok_0.graph;
    let b = merge::merged(g, snap, full)->Ok_0.graph;
    mirror::law_gc_removes_what_is_left_over(c);
    mirror::lemma_collected_true(c, units, records);
    assert forall|name: Seq<char>|
        #[trigger] db::by_name(b.units, name) is Some <==> units.contains_key(name) && !gone(
            a,
            snap.missing_sources,
            name,
        ) && !plan::main_missing(units[name].data, snap.missing_sources) by {
        assert(b.units == c.units);
        lemma_units_after(a, snap, units, records, c, name);
    }
}

/// The graph is right of what did not change when the store changes, where a
/// unit that keeps its time keeps what it says, and records only come to it. So
/// one merge after the other brings the graph to what the store says.
pub proof fn law_next_merge_is_faithful(
    g: GraphV,
    snap: SnapshotV,
    units: Units,
    records: Records,
    units_later: Units,
    records_later: Records,
)
    requires
        growth::sound(g),
        countable(g, snap),
        mirror::units_true(g, units),
        mirror::records_true(g, records),
        forall|name: Seq<char>| #[trigger]
            units.contains_key(name) && units_later.contains_key(name)
                && units_later[name].mtime_ns == units[name].mtime_ns ==> units_later[name]
                == units[name],
        forall|name: Seq<char>| #[trigger]
            records.contains_key(name) ==> records_later.contains_key(name)
                && records_later[name].occurrences == records[name].occurrences
                && records[name].paths.subset_of(records_later[name].paths),
        lists(snap.listing, units_later),
        mirror::readings_true(snap.units, snap.records, units_later, records_later),
    ensures
        faithful(g, snap, units_later, records_later),
{
    assert forall|i: int| 0 <= i < g.records.len() implies mirror::record_true(
        g,
        #[trigger] g.records[i],
        records_later,
    ) by {
        assert(mirror::record_true(g, g.records[i], records));
        assert(records.contains_key(g.records[i].name));
    }
    assert forall|i: int|
        0 <= i < g.units.len() && units_later.contains_key((#[trigger] g.units[i]).name)
            && units_later[g.units[i].name].mtime_ns
            == g.units[i].mtime_ns implies mirror::unit_true(
        g,
        g.units[i],
        units_later[g.units[i].name],
    ) by {
        let u = g.units[i];
        assert(units.contains_key(u.name));
        assert(mirror::unit_true(g, u, units[u.name]));
    }
}

/// An empty graph can be brought to what any store says.
pub proof fn law_first_merge_is_faithful(snap: SnapshotV, units: Units, records: Records)
    requires
        snap.listing.len() <= usize::MAX,
        lists(snap.listing, units),
        mirror::readings_true(snap.units, snap.records, units, records),
    ensures
        faithful(GraphV::empty(), snap, units, records),
{
}

// ---- again --------------------------------------------------------------

/// A full merge does not depend on what the graph was.
pub proof fn law_full_merge_forgets_the_graph(g: GraphV, h: GraphV, snap: SnapshotV)
    ensures
        merge::merged(g, snap, true) == merge::merged(h, snap, true),
        merge::merged(g, snap, true) == merge::merged(GraphV::empty(), snap, false),
{
}

// ---- what is read -------------------------------------------------------

/// Whether a reading is not needed, or is the same in both.
pub open spec fn same_or_known(
    g: GraphV,
    name: Seq<char>,
    read: Seq<RecordDataV>,
    other: Seq<RecordDataV>,
) -> bool {
    db::by_name(g.records, name) is Some || store::first_named(read, name) == store::first_named(
        other,
        name,
    )
}

/// Whether a reading is not needed, or is there.
pub open spec fn read_or_known(g: GraphV, name: Seq<char>, read: Seq<RecordDataV>) -> bool {
    db::by_name(g.records, name) is Some || store::first_named(read, name) is Some
}

pub proof fn lemma_still_known(a: GraphV, b: GraphV, name: Seq<char>)
    requires
        growth::starts(a.records, b.records),
        db::by_name(a.records, name) is Some,
    ensures
        db::by_name(b.records, name) is Some,
{
    let i = choose|i: int| db::has_name_at(a.records, name, i);
    assert(db::has_name_at(a.records, name, i));
    assert(db::has_name_at(b.records, name, i));
}

pub proof fn lemma_dep_starts(
    p: Progress,
    unit_id: i64,
    unit: Seq<char>,
    dep: RecordDepV,
    read: Seq<RecordDataV>,
)
    requires
        merge::after_dep(p, unit_id, unit, dep, read) is Ok,
    ensures
        growth::starts(
            p.graph.records,
            merge::after_dep(p, unit_id, unit, dep, read)->Ok_0.graph.records,
        ),
{
    if db::by_name(p.graph.records, dep.name) is None {
        let data = store::first_named(read, dep.name).unwrap();
        let (g1, id) = merge::with_bare_record(p.graph, dep.name, dep.file_path).unwrap();
        lemma_occurrences_len(g1, id, data.occurrences);
    }
}

pub proof fn lemma_deps_same(
    p: Progress,
    unit_id: i64,
    unit: Seq<char>,
    deps: Seq<RecordDepV>,
    read: Seq<RecordDataV>,
    other: Seq<RecordDataV>,
)
    ensures
        (forall|i: int|
            0 <= i < deps.len() ==> same_or_known(
                p.graph,
                (#[trigger] deps[i]).name,
                read,
                other,
            )) ==> merge::after_deps(p, unit_id, unit, deps, read) == merge::after_deps(
            p,
            unit_id,
            unit,
            deps,
            other,
        ),
        (forall|i: int|
            0 <= i < deps.len() ==> read_or_known(p.graph, (#[trigger] deps[i]).name, read)) ==> (
        merge::after_deps(p, unit_id, unit, deps, read) matches Err(e) ==> e is Full),
        merge::after_deps(p, unit_id, unit, deps, read) matches Ok(q) ==> growth::starts(
            p.graph.records,
            q.graph.records,
        ),
    decreases deps.len(),
{
    if deps.len() > 0 {
        let rest = deps.drop_first();
        let d = deps[0];
        match merge::after_dep(p, unit_id, unit, d, read) {
            Ok(p1) => {
                lemma_dep_starts(p, unit_id, unit, d, read);
                lemma_deps_same(p1, unit_id, unit, rest, read, other);
                if forall|i: int|
                    0 <= i < deps.len() ==> same_or_known(
                        p.graph,
                        (#[trigger] deps[i]).name,
                        read,
                        other,
                    ) {
                    assert(same_or_known(p.graph, d.name, read, other));
                    assert forall|i: int| 0 <= i < rest.len() implies same_or_known(
                        p1.graph,
                        (#[trigger] rest[i]).name,
                        read,
                        other,
                    ) by {
                        assert(same_or_known(p.graph, deps[i + 1].name, read, other));
                        if db::by_name(p.graph.records, rest[i].name) is Some {
                            lemma_still_known(p.graph, p1.graph, rest[i].name);
                        }
                    }
                }
                if forall|i: int|
                    0 <= i < deps.len() ==> read_or_known(
                        p.graph,
                        (#[trigger] deps[i]).name,
                        read,
                    ) {
                    assert forall|i: int| 0 <= i < rest.len() implies read_or_known(
                        p1.graph,
                        (#[trigger] rest[i]).name,
                        read,
                    ) by {
                        assert(read_or_known(p.graph, deps[i + 1].name, read));
                        if db::by_name(p.graph.records, rest[i].name) is Some {
                            lemma_still_known(p.graph, p1.graph, rest[i].name);
                        }
                    }
                }
                if let Ok(q) = merge::after_deps(p, unit_id, unit, deps, read) {
                    assert forall|i: int| 0 <= i < p.graph.records.len() implies p.graph.records[i]
                        == #[trigger] q.graph.records[i] by {
                        assert(p1.graph.records[i] == q.graph.records[i]);
                    }
                }
            },
            Err(e) => {
                if forall|i: int|
                    0 <= i < deps.len() ==> same_or_known(
                        p.graph,
                        (#[trigger] deps[i]).name,
                        read,
                        other,
                    ) {
                    assert(same_or_known(p.graph, d.name, read, other));
                }
                if forall|i: int|
                    0 <= i < deps.len() ==> read_or_known(
                        p.graph,
                        (#[trigger] deps[i]).name,
                        read,
                    ) {
                    assert(read_or_known(p.graph, d.name, read));
                }
            },
        }
    }
}

/// A record that a unit of the list is made of is among those of the list.
proof fn lemma_deps_of_first(
    list: Seq<StampV>,
    units_read: Seq<UnitDataV>,
    missing: Seq<Seq<char>>,
)
    requires
        list.len() > 0,
        store::first_named(units_read, list[0].name) is Some,
    ensures
        deps_of(list, units_read, missing) == merge::deps_to_add(missing)(
            store::first_named(units_read, list[0].name).unwrap(),
        ) + deps_of(list.drop_first(), units_read, missing),
{
}

/// The step for one unit depends on nothing but what was read of it and of the
/// new records that it is made of. Where these were read, it fails only where
/// ids or numbers are used up.
pub proof fn lemma_unit_same(
    p: Progress,
    s: StampV,
    units_read: Seq<UnitDataV>,
    read: Seq<RecordDataV>,
    units_other: Seq<UnitDataV>,
    other: Seq<RecordDataV>,
    missing: Seq<Seq<char>>,
)
    requires
        store::first_named(units_read, s.name) is Some,
        store::first_named(units_read, s.name) == store::first_named(units_other, s.name),
    ensures
        ({
            let deps = merge::deps_to_add(missing)(
                store::first_named(units_read, s.name).unwrap(),
            );
            let made = merge::after_unit(p, s, units_read, read, missing);
            &&& (forall|i: int|
                0 <= i < deps.len() ==> same_or_known(
                    p.graph,
                    (#[trigger] deps[i]).name,
                    read,
                    other,
                )) ==> made == merge::after_unit(p, s, units_other, other, missing)
            &&& (forall|i: int|
                0 <= i < deps.len() ==> read_or_known(
                    p.graph,
                    (#[trigger] deps[i]).name,
                    read,
                )) ==> (made matches Err(e) ==> e is Full)
            &&& made matches Ok(q) ==> growth::starts(p.graph.records, q.graph.records)
        }),
{
    let data = store::first_named(units_read, s.name).unwrap();
    if !plan::main_missing(data, missing) {
        let deps = merge::deps_to_add(missing)(data);
        assert(deps == data.deps);
        if let Some((g, id)) = merge::with_bare_unit(p.graph, s, data) {
            let p0 = Progress { graph: g, stats: p.stats };
            assert(g.records == p.graph.records);
            lemma_deps_same(p0, id, s.name, deps, read, other);
            assert forall|i: int| 0 <= i < deps.len() implies same_or_known(
                p.graph,
                (#[trigger] deps[i]).name,
                read,
                other,
            ) == same_or_known(g, deps[i].name, read, other) by {}
            assert forall|i: int| 0 <= i < deps.len() implies read_or_known(
                p.graph,
                (#[trigger] deps[i]).name,
                read,
            ) == read_or_known(g, deps[i].name, read) by {}
        }
    }
}

proof fn lemma_units_same(
    p: Progress,
    list: Seq<StampV>,
    units_read: Seq<UnitDataV>,
    read: Seq<RecordDataV>,
    units_other: Seq<UnitDataV>,
    other: Seq<RecordDataV>,
    missing: Seq<Seq<char>>,
)
    requires
        forall|i: int|
            0 <= i < list.len() ==> store::first_named(units_read, (#[trigger] list[i]).name)
                == store::first_named(units_other, list[i].name),
        forall|i: int|
            0 <= i < deps_of(list, units_read, missing).len() ==> same_or_known(
                p.graph,
                (#[trigger] deps_of(list, units_read, missing)[i]).name,
                read,
                other,
            ),
    ensures
        merge::after_units(p, list, units_read, read, missing) == merge::after_units(
            p,
            list,
            units_other,
            other,
            missing,
        ),
    decreases list.len(),
{
    if list.len() > 0 {
        let s = list[0];
        let rest = list.drop_first();
        assert forall|i: int| 0 <= i < rest.len() implies store::first_named(
            units_read,
            (#[trigger] rest[i]).name,
        ) == store::first_named(units_other, rest[i].name) by {
            assert(rest[i] == list[i + 1]);
        }
        if let Some(data) = store::first_named(units_read, s.name) {
            lemma_deps_of_first(list, units_read, missing);
            let all = deps_of(list, units_read, missing);
            let later = deps_of(rest, units_read, missing);
            let own = merge::deps_to_add(missing)(data);
            assert forall|i: int| 0 <= i < own.len() implies same_or_known(
                p.graph,
                (#[trigger] own[i]).name,
                read,
                other,
            ) by {
                assert(all[i] == own[i]);
                assert(same_or_known(p.graph, all[i].name, read, other));
            }
            lemma_unit_same(p, s, units_read, read, units_other, other, missing);
            if let Ok(p1) = merge::after_unit(p, s, units_read, read, missing) {
                let p2 = Progress {
                    graph: p1.graph,
                    stats: MergeStats {
                        units_processed: (p1.stats.units_processed + 1) as usize,
                        ..p1.stats
                    },
                };
                assert forall|i: int| 0 <= i < later.len() implies same_or_known(
                    p2.graph,
                    (#[trigger] later[i]).name,
                    read,
                    other,
                ) by {
                    assert(all[own.len() + i] == later[i]);
                    assert(same_or_known(p.graph, all[own.len() + i].name, read, other));
                    if db::by_name(p.graph.records, later[i].name) is Some {
                        lemma_still_known(p.graph, p2.graph, later[i].name);
                    }
                }
                lemma_units_same(p2, rest, units_read, read, units_other, other, missing);
            }
        }
    }
}

proof fn lemma_units_suffice(
    p: Progress,
    list: Seq<StampV>,
    units_read: Seq<UnitDataV>,
    read: Seq<RecordDataV>,
    missing: Seq<Seq<char>>,
)
    requires
        forall|i: int|
            0 <= i < list.len() ==> store::first_named(
                units_read,
                (#[trigger] list[i]).name,
            ) is Some,
        forall|i: int|
            0 <= i < deps_of(list, units_read, missing).len() ==> read_or_known(
                p.graph,
                (#[trigger] deps_of(list, units_read, missing)[i]).name,
                read,
            ),
    ensures
        merge::after_units(p, list, units_read, read, missing) matches Err(e) ==> e is Full,
    decreases list.len(),
{
    if list.len() > 0 {
        let s = list[0];
        let rest = list.drop_first();
        assert forall|i: int| 0 <= i < rest.len() implies store::first_named(
            units_read,
            (#[trigger] rest[i]).name,
        ) is Some by {
            assert(rest[i] == list[i + 1]);
        }
        let data = store::first_named(units_read, s.name).unwrap();
        lemma_deps_of_first(list, units_read, missing);
        let all = deps_of(list, units_read, missing);
        let later = deps_of(rest, units_read, missing);
        let own = merge::deps_to_add(missing)(data);
        assert forall|i: int| 0 <= i < own.len() implies read_or_known(
            p.graph,
            (#[trigger] own[i]).name,
            read,
        ) by {
            assert(all[i] == own[i]);
            assert(read_or_known(p.graph, all[i].name, read));
        }
        lemma_unit_same(p, s, units_read, read, units_read, read, missing);
        if let Ok(p1) = merge::after_unit(p, s, units_read, read, missing) {
            let p2 = Progress {
                graph: p1.graph,
                stats: MergeStats {
                    units_processed: (p1.stats.units_processed + 1) as usize,
                    ..p1.stats
                },
            };
            assert forall|i: int| 0 <= i < later.len() implies read_or_known(
                p2.graph,
                (#[trigger] later[i]).name,
                read,
            ) by {
                assert(all[own.len() + i] == later[i]);
                assert(read_or_known(p.graph, all[own.len() + i].name, read));
                if db::by_name(p.graph.records, later[i].name) is Some {
                    lemma_still_known(p.graph, p2.graph, later[i].name);
                }
            }
            lemma_units_suffice(p2, rest, units_read, read, missing);
        }
    }
}

/// A merge depends on nothing of the store but its listing, the units that have
/// to be read, and the records that these are made of and the graph does not
/// have. So nothing else has to be opened.
pub proof fn law_merge_opens_only_what_changed(
    g: GraphV,
    snap: SnapshotV,
    other: SnapshotV,
    full: bool,
)
    requires
        other.listing == snap.listing,
        other.missing_sources == snap.missing_sources,
        ({
            let a = merge::base(g, full);
            let list = plan::units_to_read(a, snap.listing, snap.missing_sources);
            &&& forall|i: int|
                0 <= i < list.len() ==> store::first_named(
                    snap.units,
                    (#[trigger] list[i]).name,
                ) == store::first_named(other.units, list[i].name)
            &&& forall|i: int|
                0 <= i < deps_of(list, snap.units, snap.missing_sources).len() && db::by_name(
                    a.records,
                    (#[trigger] deps_of(list, snap.units, snap.missing_sources)[i]).name,
                ) is None ==> store::first_named(snap.records, deps_of(list, snap.units, snap.missing_sources)[i].name)
                    == store::first_named(other.records, deps_of(list, snap.units, snap.missing_sources)[i].name)
        }),
    ensures
        merge::merged(g, other, full) == merge::merged(g, snap, full),
{
    let a = merge::base(g, full);
    let list = plan::units_to_read(a, snap.listing, snap.missing_sources);
    lemma_pruned_tables(a, plan::units_to_drop(a, snap.listing, snap.missing_sources));
    let p = Progress { graph: pruned(a, snap), stats: merge::start_stats(a, snap) };
    assert forall|i: int| 0 <= i < deps_of(list, snap.units, snap.missing_sources).len() implies same_or_known(
        p.graph,
        (#[trigger] deps_of(list, snap.units, snap.missing_sources)[i]).name,
        snap.records,
        other.records,
    ) by {}
    lemma_units_same(
        p,
        list,
        snap.units,
        snap.records,
        other.units,
        other.records,
        snap.missing_sources,
    );
}

/// A merge for which the units that have to be read were read, and the records
/// that these are made of and the graph does not have, fails only where ids or
/// numbers are used up.
pub proof fn law_merge_needs_only_what_changed(g: GraphV, snap: SnapshotV, full: bool)
    requires
        ({
            let a = merge::base(g, full);
            let list = plan::units_to_read(a, snap.listing, snap.missing_sources);
            &&& forall|i: int|
                0 <= i < list.len() ==> store::first_named(
                    snap.units,
                    (#[trigger] list[i]).name,
                ) is Some
            &&& forall|i: int|
                0 <= i < deps_of(list, snap.units, snap.missing_sources).len() && db::by_name(
                    a.records,
                    (#[trigger] deps_of(list, snap.units, snap.missing_sources)[i]).name,
                ) is None ==> store::first_named(
                    snap.records,
                    deps_of(list, snap.units, snap.missing_sources)[i].name,
                ) is Some
        }),
    ensures
        merge::merged(g, snap, full) matches Err(e) ==> e is Full,
{
    let a = merge::base(g, full);
    let list = plan::units_to_read(a, snap.listing, snap.missing_sources);
    lemma_pruned_tables(a, plan::units_to_drop(a, snap.listing, snap.missing_sources));
    let p = Progress { graph: pruned(a, snap), stats: merge::start_stats(a, snap) };
    assert forall|i: int| 0 <= i < deps_of(list, snap.units, snap.missing_sources).len() implies read_or_known(
        p.graph,
        (#[trigger] deps_of(list, snap.units, snap.missing_sources)[i]).name,
        snap.records,
    ) by {}
    lemma_units_suffice(p, list, snap.units, snap.records, snap.missing_sources);
}

/// Where more sources are missing, no more units have to be read.
proof fn lemma_fewer_reads(
    g: GraphV,
    listing: Seq<StampV>,
    missing: Seq<Seq<char>>,
    more: Seq<Seq<char>>,
    s: StampV,
)
    requires
        forall|path: Seq<char>| #[trigger] missing.contains(path) ==> more.contains(path),
        plan::units_to_read(g, listing, more).contains(s),
    ensures
        plan::units_to_read(g, listing, missing).contains(s),
{
    lemma_reads(g, listing, more, s);
    lemma_reads(g, listing, missing, s);
}

/// What a merge is planned to read is enough for it. Where the units were read
/// that the plan names, and then the records that these need, the merge fails
/// only where ids or numbers are used up. More sources may turn out to be missing
/// after the plan was made.
pub proof fn law_what_is_planned_is_enough(
    g: GraphV,
    snap: SnapshotV,
    full: bool,
    missing: Seq<Seq<char>>,
)
    requires
        forall|path: Seq<char>| #[trigger]
            missing.contains(path) ==> snap.missing_sources.contains(path),
        ({
            let a = merge::base(g, full);
            let list = plan::units_to_read(a, snap.listing, missing);
            let records = merge::new_records(
                a,
                merge::all_deps(snap.units, snap.missing_sources),
            );
            &&& forall|i: int|
                0 <= i < list.len() ==> store::first_named(
                    snap.units,
                    (#[trigger] list[i]).name,
                ) is Some
            &&& forall|i: int|
                0 <= i < records.len() ==> store::first_named(
                    snap.records,
                    (#[trigger] records[i]).name,
                ) is Some
        }),
    ensures
        merge::merged(g, snap, full) matches Err(e) ==> e is Full,
{
    let a = merge::base(g, full);
    let more = snap.missing_sources;
    let planned = plan::units_to_read(a, snap.listing, missing);
    let list = plan::units_to_read(a, snap.listing, more);
    let deps = merge::all_deps(snap.units, more);
    let records = merge::new_records(a, deps);
    let needed = deps_of(list, snap.units, more);
    assert forall|i: int| 0 <= i < list.len() implies store::first_named(
        snap.units,
        (#[trigger] list[i]).name,
    ) is Some by {
        assert(list.contains(list[i]));
        lemma_fewer_reads(a, snap.listing, missing, more, list[i]);
        let k = choose|k: int| 0 <= k < planned.len() && planned[k] == list[i];
        assert(store::first_named(snap.units, planned[k].name) is Some);
    }
    law_records_to_read_are_the_new_ones(a, deps);
    assert forall|i: int|
        0 <= i < needed.len() && db::by_name(
            a.records,
            (#[trigger] needed[i]).name,
        ) is None implies store::first_named(snap.records, needed[i].name) is Some by {
        let d = needed[i];
        let f = pick_deps(snap.units, more);
        let h = merge::deps_to_add(more);
        assert(needed.contains(d));
        rows::lemma_gather_members(list, f, d);
        let j = choose|j: int| 0 <= j < list.len() && f(#[trigger] list[j]).contains(d);
        let data = store::first_named(snap.units, list[j].name).unwrap();
        mirror::lemma_first_named(snap.units, list[j].name);
        let k = choose|k: int| 0 <= k < snap.units.len() && snap.units[k] == data;
        assert(h(snap.units[k]).contains(d));
        rows::lemma_gather_members(snap.units, h, d);
        let m = choose|m: int| 0 <= m < deps.len() && deps[m] == d;
        assert(deps[m].name == d.name);
        assert(merge::has_dep(deps, d.name));
        assert(merge::has_dep(records, d.name));
        let n = choose|n: int| 0 <= n < records.len() && (#[trigger] records[n]).name == d.name;
        assert(store::first_named(snap.records, records[n].name) is Some);
    }
    law_merge_needs_only_what_changed(g, snap, full);
}

/// The records that have to be read for units are those that the units are made
/// of and the graph does not have, each once.
pub proof fn law_records_to_read_are_the_new_ones(g: GraphV, deps: Seq<RecordDepV>)
    ensures
        ({
            let r = merge::new_records(g, deps);
            &&& forall|name: Seq<char>|
                #[trigger] merge::has_dep(r, name) <==> merge::has_dep(deps, name) && db::by_name(
                    g.records,
                    name,
                ) is None
            &&& forall|i: int, j: int|
                0 <= i < j < r.len() ==> (#[trigger] r[i]).name != (#[trigger] r[j]).name
        }),
    decreases deps.len(),
{
    let r = merge::new_records(g, deps);
    if deps.len() == 0 {
        assert forall|name: Seq<char>| !#[trigger] merge::has_dep(r, name) by {}
        assert forall|name: Seq<char>| !#[trigger] merge::has_dep(deps, name) by {}
    } else {
        let init = deps.drop_last();
        let d = deps.last();
        let before = merge::new_records(g, init);
        law_records_to_read_are_the_new_ones(g, init);
        assert forall|name: Seq<char>|
            #[trigger] merge::has_dep(deps, name) <==> merge::has_dep(init, name) || name
                == d.name by {
            lemma_has_dep_push(init, d, name);
            assert(init.push(d) =~= deps);
        }
        assert forall|name: Seq<char>|
            #[trigger] merge::has_dep(before.push(d), name) <==> merge::has_dep(before, name)
                || name == d.name by {
            lemma_has_dep_push(before, d, name);
        }
        if r.len() > before.len() {
            assert forall|i: int, j: int| 0 <= i < j < r.len() implies (#[trigger] r[i]).name != (
            #[trigger] r[j]).name by {
                if j == before.len() {
                    assert(before[i].name == r[i].name);
                    assert(merge::has_dep(before, before[i].name));
                }
            }
        }
    }
}

proof fn lemma_has_dep_push(s: Seq<RecordDepV>, d: RecordDepV, name: Seq<char>)
    ensures
        merge::has_dep(s.push(d), name) <==> merge::has_dep(s, name) || name == d.name,
{
    let t = s.push(d);
    if merge::has_dep(t, name) {
        let i = choose|i: int| 0 <= i < t.len() && (#[trigger] t[i]).name == name;
        if i < s.len() {
            assert(s[i].name == name);
        }
    }
    if merge::has_dep(s, name) {
        let i = choose|i: int| 0 <= i < s.len() && (#[trigger] s[i]).name == name;
        assert(t[i].name == name);
    }
    assert(t[s.len() as int].name == d.name);
}

// ---- rows ---------------------------------------------------------------

/// Whether each row of `b` is one of `a`, or has an id above all of `a`.
pub open spec fn old_or_above<T: HasId>(a: Seq<T>, b: Seq<T>) -> bool {
    forall|x: T| #[trigger]
        b.contains(x) ==> a.contains(x) || forall|i: int|
            0 <= i < a.len() ==> (#[trigger] a[i]).rid() < x.rid()
}

proof fn lemma_old_or_above<T: HasId>(a: Seq<T>, b: Seq<T>)
    requires
        growth::starts(a, b),
        db::ascending(b),
    ensures
        old_or_above(a, b),
{
    assert forall|x: T| #[trigger] b.contains(x) implies a.contains(x) || forall|i: int|
        0 <= i < a.len() ==> (#[trigger] a[i]).rid() < x.rid() by {
        let k = choose|k: int| 0 <= k < b.len() && b[k] == x;
        if k < a.len() {
            assert(a[k] == x);
        } else {
            assert forall|i: int| 0 <= i < a.len() implies (#[trigger] a[i]).rid() < x.rid() by {
                assert(b[i] == a[i]);
                assert(b[i].rid() < b[k].rid());
            }
        }
    }
}

/// A unit whose row a merge leaves as it was keeps its records.
pub proof fn law_units_that_stay_keep_their_records(
    g: GraphV,
    snap: SnapshotV,
    full: bool,
    u: UnitV,
)
    requires
        growth::sound(merge::base(g, full)),
        merge::merged(g, snap, full) is Ok,
        merge::base(g, full).units.contains(u),
        merge::merged(g, snap, full)->Ok_0.graph.units.contains(u),
    ensures
        mirror::same_links(
            merge::base(g, full),
            merge::merged(g, snap, full)->Ok_0.graph,
            u.id,
        ),
{
    let a = merge::base(g, full);
    let b = merge::merged(g, snap, full)->Ok_0.graph;
    let c = filled(g, snap, full)->Ok_0.graph;
    let missing = snap.missing_sources;
    let ids = plan::units_to_drop(a, snap.listing, missing);
    let list = plan::units_to_read(a, snap.listing, missing);
    let g1 = pruned(a, snap);
    let p0 = Progress { graph: g1, stats: merge::start_stats(a, snap) };
    lemma_without_units(a, ids);
    presence::lemma_units_steps(p0, list, snap.units, snap.records, missing);
    assert(c.units.contains(u));
    assert(presence::old_or_stamped(g1, list, u));
    growth::lemma_by_name_member(a.units, u);
    assert forall|i: int|
        #[trigger] db::has_name_at(list, u.name, i) implies list[i].mtime_ns != u.mtime_ns by {
        assert(list.contains(list[i]));
        lemma_reads(a, snap.listing, missing, list[i]);
    }
    assert(g1.units.contains(u));
    mirror::lemma_others_stay(p0, list, snap.units, snap.records, missing, u);
    assert(mirror::same_links(a, g1, u.id));
    assert forall|record_id: i64| #[trigger]
        a.links.contains(LinkRow { unit_id: u.id, record_id }) <==> b.links.contains(
            LinkRow { unit_id: u.id, record_id },
        ) by {
        assert(g1.links.contains(LinkRow { unit_id: u.id, record_id }) <==> c.links.contains(
            LinkRow { unit_id: u.id, record_id },
        ));
    }
}

/// Before what is left over is removed, a merge only adds rows.
pub proof fn lemma_filled_grown(g: GraphV, snap: SnapshotV, full: bool)
    requires
        growth::sound(merge::base(g, full)),
        filled(g, snap, full) is Ok,
    ensures
        growth::sound(filled(g, snap, full)->Ok_0.graph),
        growth::grown(merge::base(g, full), filled(g, snap, full)->Ok_0.graph),
{
    let a = merge::base(g, full);
    let ids = plan::units_to_drop(a, snap.listing, snap.missing_sources);
    let list = plan::units_to_read(a, snap.listing, snap.missing_sources);
    let p0 = Progress { graph: pruned(a, snap), stats: merge::start_stats(a, snap) };
    lemma_without_units(a, ids);
    mirror::lemma_after_units(
        p0,
        list,
        snap.units,
        snap.records,
        snap.missing_sources,
        Map::empty(),
        Map::empty(),
    );
    let c = filled(g, snap, full)->Ok_0.graph;
    growth::lemma_grown_trans(a, pruned(a, snap), c);
}

/// A merge changes no row: each file, symbol, record and occurrence that the
/// graph has afterwards is one that it had, or has an id above all that it had,
/// and each relation is one that it had, or is one of a new occurrence. All
/// files stay.
pub proof fn law_merge_changes_no_row(g: GraphV, snap: SnapshotV, full: bool)
    requires
        growth::sound(merge::base(g, full)),
        merge::merged(g, snap, full) is Ok,
    ensures
        ({
            let a = merge::base(g, full);
            let b = merge::merged(g, snap, full)->Ok_0.graph;
            &&& growth::starts(a.files, b.files)
            &&& old_or_above(a.files, b.files)
            &&& old_or_above(a.symbols, b.symbols)
            &&& old_or_above(a.records, b.records)
            &&& old_or_above(a.occurrences, b.occurrences)
            &&& forall|x: RelationRow| #[trigger]
                b.relations.contains(x) ==> a.relations.contains(x) || db::by_id(
                    a.occurrences,
                    x.occ_id,
                ) is None
        }),
{
    let a = merge::base(g, full);
    lemma_filled_grown(g, snap, full);
    let c = filled(g, snap, full)->Ok_0.graph;
    let b = merge::merged(g, snap, full)->Ok_0.graph;
    lemma_old_or_above(a.files, c.files);
    lemma_old_or_above(a.symbols, c.symbols);
    lemma_old_or_above(a.records, c.records);
    lemma_old_or_above(a.occurrences, c.occurrences);
    let d = merge::without_dead(c);
    assert forall|x: SymbolV| #[trigger] b.symbols.contains(x) implies c.symbols.contains(x) by {
        rows::lemma_keep_members(d.symbols, |s: SymbolV| merge::is_used(d, s.id), x);
    }
    assert forall|x: RecordV| #[trigger] b.records.contains(x) implies c.records.contains(x) by {
        rows::lemma_keep_members(c.records, |r: RecordV| !merge::is_dead(c, r.id), x);
    }
    assert forall|x: OccRow| #[trigger] b.occurrences.contains(x) implies c.occurrences.contains(
        x,
    ) by {
        rows::lemma_keep_members(c.occurrences, |o: OccRow| !merge::is_dead(c, o.record_id), x);
    }
    assert forall|x: RelationRow| #[trigger] b.relations.contains(x) implies a.relations.contains(x)
        || db::by_id(a.occurrences, x.occ_id) is None by {
        rows::lemma_keep_members(
            c.relations,
            |r: RelationRow| !merge::is_dead_relation(c, r),
            x,
        );
        let k = choose|k: int| 0 <= k < c.relations.len() && c.relations[k] == x;
        if k < a.relations.len() {
            assert(a.relations[k] == x);
        } else {
            assert(db::by_id(a.occurrences, c.relations[k].occ_id) is None);
        }
    }
}

// ---- names of symbols ---------------------------------------------------

/// Whether the row says of the symbol what the store does.
pub open spec fn symbol_said(s: SymbolV, info: SymInfoV) -> bool {
    &&& s.usr == info.usr
    &&& s.name == info.name
    &&& s.kind == info.kind as i64
    &&& s.lang == info.lang as i64
}

/// A symbol has one row and one id. What the graph first says of a USR stays, as
/// long as rows are only added: asking for the USR again gives the same id and
/// adds nothing, whatever name, kind or language comes with it, and another USR
/// has another id.
pub proof fn law_a_symbol_keeps_its_row(
    g: GraphV,
    first: SymInfoV,
    h: GraphV,
    again: SymInfoV,
    other: SymInfoV,
)
    requires
        g.keyed(),
        db::by_name(g.symbols, first.usr) is None,
        merge::with_symbol(g, first) is Some,
        h.keyed(),
        growth::starts(merge::with_symbol(g, first).unwrap().0.symbols, h.symbols),
        again.usr == first.usr,
        other.usr != first.usr,
    ensures
        ({
            let id = merge::with_symbol(g, first).unwrap().1;
            &&& merge::with_symbol(h, again) == Some((h, id))
            &&& db::by_name(h.symbols, first.usr) matches Some(row) && {
                &&& row.id == id
                &&& symbol_said(row, first)
                &&& forall|s: SymbolV|
                    #[trigger] h.symbols.contains(s) && s.usr == first.usr ==> s == row
                &&& merge::with_symbol(h, other) matches Some((k, other_id)) ==> other_id != id
                    && db::by_name(k.symbols, first.usr) == Some(row)
            }
        }),
{
    let (g1, id) = merge::with_symbol(g, first).unwrap();
    let n = g.symbols.len() as int;
    let row = g1.symbols[n];
    assert(h.symbols[n] == row);
    db::lemma_by_name(h.symbols, n);
    assert forall|s: SymbolV| #[trigger] h.symbols.contains(s) && s.usr == first.usr implies s
        == row by {
        growth::lemma_by_name_member(h.symbols, s);
    }
    assert(h.symbols.contains(row));
    growth::lemma_by_id_member(h.symbols, row);
    if let Some((k, other_id)) = merge::with_symbol(h, other) {
        match db::by_name(h.symbols, other.usr) {
            Some(o) => {
                growth::lemma_by_name_found(h.symbols, other.usr);
                growth::lemma_by_id_member(h.symbols, o);
            },
            None => {
                growth::lemma_next_id_new(h.symbols);
                db::lemma_names_push(h.symbols, k.symbols.last());
                assert(k.symbols[n] == row);
                db::lemma_by_name(k.symbols, n);
            },
        }
    }
}

/// Whether the store says of the symbol somewhere what the row does.
pub open spec fn is_said(s: SymbolV, infos: Set<SymInfoV>) -> bool {
    exists|info: SymInfoV| #[trigger] infos.contains(info) && symbol_said(s, info)
}

/// Whether each symbol of the graph is one that the store says.
pub open spec fn symbols_said(g: GraphV, infos: Set<SymInfoV>) -> bool {
    forall|i: int| 0 <= i < g.symbols.len() ==> is_said(#[trigger] g.symbols[i], infos)
}

/// Whether the symbols of an occurrence are among those.
pub open spec fn occurrence_among(o: OccurrenceV, infos: Set<SymInfoV>) -> bool {
    infos.contains(o.symbol) && forall|i: int|
        0 <= i < o.relations.len() ==> infos.contains((#[trigger] o.relations[i]).1)
}

/// Whether the symbols of what was read of records are among those.
pub open spec fn readings_among(read: Seq<RecordDataV>, infos: Set<SymInfoV>) -> bool {
    forall|i: int, k: int|
        0 <= i < read.len() && 0 <= k < read[i].occurrences.len() ==> occurrence_among(
            #[trigger] read[i].occurrences[k],
            infos,
        )
}

proof fn lemma_said_symbol(g: GraphV, s: SymInfoV, infos: Set<SymInfoV>)
    requires
        merge::with_symbol(g, s) is Some,
        symbols_said(g, infos),
        infos.contains(s),
    ensures
        symbols_said(merge::with_symbol(g, s).unwrap().0, infos),
{
    let b = merge::with_symbol(g, s).unwrap().0;
    assert forall|i: int| 0 <= i < b.symbols.len() implies is_said(
        #[trigger] b.symbols[i],
        infos,
    ) by {
        if i < g.symbols.len() {
            assert(b.symbols[i] == g.symbols[i]);
        } else {
            assert(symbol_said(b.symbols[i], s));
        }
    }
}

proof fn lemma_said_relations(
    g: GraphV,
    occ_id: i64,
    rels: Seq<(u64, SymInfoV)>,
    infos: Set<SymInfoV>,
)
    requires
        merge::with_relations(g, occ_id, rels) is Some,
        symbols_said(g, infos),
        forall|i: int| 0 <= i < rels.len() ==> infos.contains((#[trigger] rels[i]).1),
    ensures
        symbols_said(merge::with_relations(g, occ_id, rels).unwrap(), infos),
    decreases rels.len(),
{
    if rels.len() > 0 {
        let rest = rels.drop_first();
        let g1 = merge::with_relation(g, occ_id, rels[0].0, rels[0].1).unwrap();
        lemma_said_symbol(g, rels[0].1, infos);
        assert forall|i: int| 0 <= i < rest.len() implies infos.contains(
            (#[trigger] rest[i]).1,
        ) by {
            assert(rest[i] == rels[i + 1]);
        }
        lemma_said_relations(g1, occ_id, rest, infos);
    }
}

proof fn lemma_said_occurrences(
    g: GraphV,
    record_id: i64,
    occs: Seq<OccurrenceV>,
    infos: Set<SymInfoV>,
)
    requires
        merge::with_occurrences(g, record_id, occs) is Some,
        symbols_said(g, infos),
        forall|i: int| 0 <= i < occs.len() ==> occurrence_among(#[trigger] occs[i], infos),
    ensures
        symbols_said(merge::with_occurrences(g, record_id, occs).unwrap(), infos),
    decreases occs.len(),
{
    if occs.len() > 0 {
        let o = occs[0];
        let rest = occs.drop_first();
        let (g1, id) = merge::with_bare_occurrence(g, record_id, o).unwrap();
        lemma_said_symbol(g, o.symbol, infos);
        lemma_said_relations(g1, id, o.relations, infos);
        assert forall|i: int| 0 <= i < rest.len() implies occurrence_among(
            #[trigger] rest[i],
            infos,
        ) by {
            assert(rest[i] == occs[i + 1]);
        }
        lemma_said_occurrences(
            merge::with_occurrence(g, record_id, o).unwrap(),
            record_id,
            rest,
            infos,
        );
    }
}

proof fn lemma_said_deps(
    p: Progress,
    unit_id: i64,
    unit: Seq<char>,
    deps: Seq<RecordDepV>,
    read: Seq<RecordDataV>,
    infos: Set<SymInfoV>,
)
    requires
        merge::after_deps(p, unit_id, unit, deps, read) is Ok,
        symbols_said(p.graph, infos),
        readings_among(read, infos),
    ensures
        symbols_said(merge::after_deps(p, unit_id, unit, deps, read)->Ok_0.graph, infos),
    decreases deps.len(),
{
    if deps.len() > 0 {
        let d = deps[0];
        let p1 = merge::after_dep(p, unit_id, unit, d, read)->Ok_0;
        if db::by_name(p.graph.records, d.name) is None {
            let data = store::first_named(read, d.name).unwrap();
            mirror::lemma_first_named(read, d.name);
            let i = choose|i: int| 0 <= i < read.len() && read[i] == data;
            let (g1, id) = merge::with_bare_record(p.graph, d.name, d.file_path).unwrap();
            assert forall|k: int| 0 <= k < data.occurrences.len() implies occurrence_among(
                #[trigger] data.occurrences[k],
                infos,
            ) by {
                assert(occurrence_among(read[i].occurrences[k], infos));
            }
            lemma_said_occurrences(g1, id, data.occurrences, infos);
            let g2 = merge::with_occurrences(g1, id, data.occurrences).unwrap();
        }
        lemma_said_deps(p1, unit_id, unit, deps.drop_first(), read, infos);
    }
}

proof fn lemma_said_units(
    p: Progress,
    list: Seq<StampV>,
    units_read: Seq<UnitDataV>,
    read: Seq<RecordDataV>,
    missing: Seq<Seq<char>>,
    infos: Set<SymInfoV>,
)
    requires
        merge::after_units(p, list, units_read, read, missing) is Ok,
        symbols_said(p.graph, infos),
        readings_among(read, infos),
    ensures
        symbols_said(merge::after_units(p, list, units_read, read, missing)->Ok_0.graph, infos),
    decreases list.len(),
{
    if list.len() > 0 {
        let s = list[0];
        let data = store::first_named(units_read, s.name).unwrap();
        if !plan::main_missing(data, missing) {
            let (g, id) = merge::with_bare_unit(p.graph, s, data).unwrap();
            lemma_said_deps(
                Progress { graph: g, stats: p.stats },
                id,
                s.name,
                data.deps,
                read,
                infos,
            );
        }
        let p1 = merge::after_unit(p, s, units_read, read, missing)->Ok_0;
        let p2 = Progress {
            graph: p1.graph,
            stats: MergeStats {
                units_processed: (p1.stats.units_processed + 1) as usize,
                ..p1.stats
            },
        };
        lemma_said_units(p2, list.drop_first(), units_read, read, missing, infos);
    }
}

/// Each symbol of the graph has the name, kind and language that the store gives
/// it somewhere. Where the store gives each symbol one, the graph has that one.
pub proof fn law_symbols_are_those_of_the_store(
    g: GraphV,
    snap: SnapshotV,
    full: bool,
    infos: Set<SymInfoV>,
)
    requires
        merge::merged(g, snap, full) is Ok,
        symbols_said(merge::base(g, full), infos),
        readings_among(snap.records, infos),
    ensures
        symbols_said(merge::merged(g, snap, full)->Ok_0.graph, infos),
{
    let a = merge::base(g, full);
    lemma_pruned_tables(a, plan::units_to_drop(a, snap.listing, snap.missing_sources));
    lemma_said_units(
        Progress { graph: pruned(a, snap), stats: merge::start_stats(a, snap) },
        plan::units_to_read(a, snap.listing, snap.missing_sources),
        snap.units,
        snap.records,
        snap.missing_sources,
        infos,
    );
    let c = filled(g, snap, full)->Ok_0.graph;
    let b = merge::merged(g, snap, full)->Ok_0.graph;
    let d = merge::without_dead(c);
    assert forall|i: int| 0 <= i < b.symbols.len() implies is_said(
        #[trigger] b.symbols[i],
        infos,
    ) by {
        let s = b.symbols[i];
        assert(b.symbols.contains(s));
        rows::lemma_keep_members(d.symbols, |x: SymbolV| merge::is_used(d, x.id), s);
        let k = choose|k: int| 0 <= k < c.symbols.len() && c.symbols[k] == s;
        assert(is_said(c.symbols[k], infos));
    }
}

} // verus!
