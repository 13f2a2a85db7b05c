//! When a merge fails, and when it does not.
use vstd::prelude::*;

use crate::db::{self, GraphV, HasId, RecordV};
use crate::ffi::{OccurrenceV, RecordDepV, SymInfoV};
use crate::growth;
use crate::laws;
use crate::merge::{self, MergeErrorV, MergeStats, Progress};
use crate::mirror;
use crate::plan;
use crate::rows;
use crate::store::{self, RecordDataV, SnapshotV, StampV, UnitDataV};
use crate::upkeep;

verus! {

// ---- room ---------------------------------------------------------------

/// The greatest id of a table, zero where it has no rows.
pub open spec fn top<T: HasId>(s: Seq<T>) -> int {
    if s.len() == 0 {
        0
    } else {
        s[s.len() - 1].rid() as int
    }
}

/// A table gives the id behind its last until ids are used up.
pub proof fn law_ids_go_up_to_the_last<T: HasId>(s: Seq<T>)
    ensures
        merge::next_id(s) is None <==> s.len() > 0 && s[s.len() - 1].rid() == i64::MAX,
        s.len() == 0 ==> merge::next_id(s) == Some(1i64),
        s.len() > 0 && merge::next_id(s) is Some ==> merge::next_id(s).unwrap() == s[s.len()
            - 1].rid() + 1,
{
}

/// Whether each table has room for that many rows.
pub open spec fn has_room(g: GraphV, n: int) -> bool {
    &&& 0 <= n < i64::MAX
    &&& top(g.files) + n < i64::MAX
    &&& top(g.symbols) + n < i64::MAX
    &&& top(g.records) + n < i64::MAX
    &&& top(g.units) + n < i64::MAX
    &&& top(g.occurrences) + n < i64::MAX
}

/// Whether that many more can be counted.
pub open spec fn can_count(st: MergeStats, n: int) -> bool {
    &&& st.units_processed + n <= usize::MAX
    &&& st.records_ingested + n <= usize::MAX
    &&& st.records_reused + n <= usize::MAX
    &&& st.occurrences_added + n <= u64::MAX
}

/// How many rows relations and occurrences can need at most.
pub open spec fn weight_of_occurrences(occs: Seq<OccurrenceV>) -> int
    decreases occs.len(),
{
    if occs.len() == 0 {
        0
    } else {
        1 + occs[0].relations.len() + weight_of_occurrences(occs.drop_first())
    }
}

/// How many rows a unit's records can need at most.
pub open spec fn weight_of_deps(deps: Seq<RecordDepV>, read: Seq<RecordDataV>) -> int
    decreases deps.len(),
{
    if deps.len() == 0 {
        0
    } else {
        let own = match store::first_named(read, deps[0].name) {
            Some(data) => weight_of_occurrences(data.occurrences),
            None => 0,
        };
        1 + own + weight_of_deps(deps.drop_first(), read)
    }
}

/// How many rows units can need at most.
pub open spec fn weight_of_units(
    list: Seq<StampV>,
    units: Seq<UnitDataV>,
    read: Seq<RecordDataV>,
) -> int
    decreases list.len(),
{
    if list.len() == 0 {
        0
    } else {
        let own = match store::first_named(units, list[0].name) {
            Some(data) => weight_of_deps(data.deps, read),
            None => 0,
        };
        1 + own + weight_of_units(list.drop_first(), units, read)
    }
}

proof fn lemma_weights(occs: Seq<OccurrenceV>)
    ensures
        weight_of_occurrences(occs) >= occs.len(),
    decreases occs.len(),
{
    if occs.len() > 0 {
        lemma_weights(occs.drop_first());
    }
}

proof fn lemma_dep_weights(deps: Seq<RecordDepV>, read: Seq<RecordDataV>)
    ensures
        weight_of_deps(deps, read) >= 0,
    decreases deps.len(),
{
    if deps.len() > 0 {
        lemma_dep_weights(deps.drop_first(), read);
        if let Some(data) = store::first_named(read, deps[0].name) {
            lemma_weights(data.occurrences);
        }
    }
}

proof fn lemma_unit_weights(list: Seq<StampV>, units: Seq<UnitDataV>, read: Seq<RecordDataV>)
    ensures
        weight_of_units(list, units, read) >= 0,
    decreases list.len(),
{
    if list.len() > 0 {
        lemma_unit_weights(list.drop_first(), units, read);
        if let Some(data) = store::first_named(units, list[0].name) {
            lemma_dep_weights(data.deps, read);
        }
    }
}

proof fn lemma_room_symbol(g: GraphV, s: SymInfoV, n: int)
    requires
        has_room(g, n),
        n >= 1,
    ensures
        merge::with_symbol(g, s) matches Some(r) && has_room(r.0, n - 1) && top(r.0.occurrences)
            == top(g.occurrences),
{
}

proof fn lemma_room_relations(g: GraphV, occ_id: i64, rels: Seq<(u64, SymInfoV)>, n: int)
    requires
        has_room(g, n),
        n >= rels.len(),
    ensures
        merge::with_relations(g, occ_id, rels) matches Some(b) && has_room(b, n - rels.len()),
    decreases rels.len(),
{
    if rels.len() > 0 {
        lemma_room_symbol(g, rels[0].1, n);
        let g1 = merge::with_relation(g, occ_id, rels[0].0, rels[0].1).unwrap();
        lemma_room_relations(g1, occ_id, rels.drop_first(), n - 1);
    }
}

proof fn lemma_room_occurrences(g: GraphV, record_id: i64, occs: Seq<OccurrenceV>, n: int)
    requires
        has_room(g, n),
        n >= weight_of_occurrences(occs),
    ensures
        merge::with_occurrences(g, record_id, occs) matches Some(b) && has_room(
            b,
            n - weight_of_occurrences(occs),
        ),
    decreases occs.len(),
{
    if occs.len() > 0 {
        let o = occs[0];
        lemma_weights(occs.drop_first());
        lemma_room_symbol(g, o.symbol, n);
        let (g1, id) = merge::with_bare_occurrence(g, record_id, o).unwrap();
        assert(has_room(g1, n - 1));
        lemma_room_relations(g1, id, o.relations, n - 1);
        let g2 = merge::with_relations(g1, id, o.relations).unwrap();
        lemma_room_occurrences(g2, record_id, occs.drop_first(), n - 1 - o.relations.len());
    }
}

proof fn lemma_room_deps(
    p: Progress,
    unit_id: i64,
    unit: Seq<char>,
    deps: Seq<RecordDepV>,
    read: Seq<RecordDataV>,
    n: int,
)
    requires
        has_room(p.graph, n),
        can_count(p.stats, n),
        n >= weight_of_deps(deps, read),
    ensures
        match merge::after_deps(p, unit_id, unit, deps, read) {
            Ok(q) => has_room(q.graph, n - weight_of_deps(deps, read)) && can_count(
                q.stats,
                n - weight_of_deps(deps, read),
            ),
            Err(e) => !(e is Full),
        },
    decreases deps.len(),
{
    if deps.len() > 0 {
        let d = deps[0];
        let rest = deps.drop_first();
        lemma_dep_weights(rest, read);
        let own = match store::first_named(read, d.name) {
            Some(data) => weight_of_occurrences(data.occurrences),
            None => 0,
        };
        if let Some(data) = store::first_named(read, d.name) {
            lemma_weights(data.occurrences);
        }
        if db::by_name(p.graph.records, d.name) is None {
            if let Some(data) = store::first_named(read, d.name) {
                let (g1, id) = merge::with_bare_record(p.graph, d.name, d.file_path).unwrap();
                assert(has_room(g1, n - 1));
                lemma_room_occurrences(g1, id, data.occurrences, n - 1);
            }
        }
        match merge::after_dep(p, unit_id, unit, d, read) {
            Ok(p1) => {
                assert(has_room(p1.graph, n - 1 - own));
                assert(can_count(p1.stats, n - 1 - own));
                lemma_room_deps(p1, unit_id, unit, rest, read, n - 1 - own);
            },
            Err(e) => {},
        }
    }
}

proof fn lemma_room_less(g: GraphV, id: i64, n: int)
    requires
        has_room(g, n),
        g.keyed(),
    ensures
        has_room(merge::without_unit(g, id), n),
        db::ascending(merge::without_unit(g, id).units),
{
    let p = |u: db::UnitV| u.id != id;
    let b = merge::without_unit(g, id);
    db::lemma_ascending_keep(g.units, p);
    if b.units.len() > 0 {
        let u = b.units[b.units.len() - 1];
        assert(b.units.contains(u));
        rows::lemma_keep_members(g.units, p, u);
        let k = choose|k: int| 0 <= k < g.units.len() && g.units[k] == u;
        if k < g.units.len() - 1 {
            assert(g.units[k].rid() < g.units[g.units.len() - 1].rid());
        }
    }
}

proof fn lemma_room_unit(
    p: Progress,
    s: StampV,
    units: Seq<UnitDataV>,
    read: Seq<RecordDataV>,
    missing: Seq<Seq<char>>,
    n: int,
    w: int,
)
    requires
        growth::sound(p.graph),
        has_room(p.graph, n),
        can_count(p.stats, n),
        store::first_named(units, s.name) matches Some(data) ==> w == weight_of_deps(
            data.deps,
            read,
        ),
        0 <= w,
        n >= 1 + w,
    ensures
        match merge::after_unit(p, s, units, read, missing) {
            Ok(q) => has_room(q.graph, n - 1 - w) && can_count(q.stats, n - 1 - w)
                && q.stats.units_processed == p.stats.units_processed,
            Err(e) => !(e is Full),
        },
{
    if let Some(data) = store::first_named(units, s.name) {
        let g0 = merge::without_named(p.graph, s.name);
        if let Some(u) = db::by_name(p.graph.units, s.name) {
            lemma_room_less(p.graph, u.id, n);
        }
        assert(has_room(g0, n));
        if !plan::main_missing(data, missing) {
            let (g1, id) = merge::with_bare_unit(p.graph, s, data).unwrap();
            assert(has_room(g1, n - 1));
            let p1 = Progress { graph: g1, stats: p.stats };
            lemma_room_deps(p1, id, s.name, data.deps, read, n - 1);
            if merge::after_deps(p1, id, s.name, data.deps, read) is Ok {
                laws::lemma_deps_counted(p1, id, s.name, data.deps, read);
            }
        }
    }
}

proof fn lemma_room_units(
    p: Progress,
    list: Seq<StampV>,
    units: Seq<UnitDataV>,
    read: Seq<RecordDataV>,
    missing: Seq<Seq<char>>,
    n: int,
)
    requires
        growth::sound(p.graph),
        has_room(p.graph, n),
        can_count(p.stats, n),
        n >= weight_of_units(list, units, read),
    ensures
        merge::after_units(p, list, units, read, missing) matches Err(e) ==> !(e is Full),
    decreases list.len(),
{
    if list.len() > 0 {
        let s = list[0];
        let rest = list.drop_first();
        let w = match store::first_named(units, s.name) {
            Some(data) => weight_of_deps(data.deps, read),
            None => 0,
        };
        if let Some(data) = store::first_named(units, s.name) {
            lemma_dep_weights(data.deps, read);
        }
        lemma_unit_weights(rest, units, read);
        lemma_room_unit(p, s, units, read, missing, n, w);
        if let Ok(p1) = merge::after_unit(p, s, units, read, missing) {
            mirror::lemma_after_unit(p, s, units, read, missing, Map::empty());
            let p2 = Progress {
                graph: p1.graph,
                stats: MergeStats {
                    units_processed: (p1.stats.units_processed + 1) as usize,
                    ..p1.stats
                },
            };
            lemma_room_units(p2, rest, units, read, missing, n - 1 - w);
        }
    }
}

proof fn lemma_pruned_top(g: GraphV, ids: Seq<i64>, n: int)
    requires
        growth::sound(g),
        has_room(g, n),
    ensures
        has_room(merge::without_units(g, ids), n),
        growth::sound(merge::without_units(g, ids)),
    decreases ids.len(),
{
    if ids.len() > 0 {
        lemma_room_less(g, ids[0], n);
        mirror::lemma_without_unit(g, ids[0]);
        lemma_pruned_top(merge::without_unit(g, ids[0]), ids.drop_first(), n);
    }
}

/// A merge for which everything was read that it needs succeeds, where the tables
/// have room for what it adds.
pub proof fn law_merges_succeed(g: GraphV, snap: SnapshotV, full: bool)
    requires
        growth::sound(merge::base(g, full)),
        ({
            let a = merge::base(g, full);
            let list = plan::units_to_read(a, snap.listing, snap.missing_sources);
            let w = weight_of_units(list, snap.units, snap.records);
            &&& has_room(a, w)
            &&& w <= usize::MAX
            &&& w <= u64::MAX
            &&& forall|i: int|
                0 <= i < list.len() ==> store::first_named(
                    snap.units,
                    (#[trigger] list[i]).name,
                ) is Some
            &&& forall|d: RecordDepV| #[trigger]
                upkeep::is_wanted(a, snap.units, snap.missing_sources, d) ==> store::first_named(
                    snap.records,
                    d.name,
                ) is Some
        }),
    ensures
        merge::merged(g, snap, full) is Ok,
{
    let a = merge::base(g, full);
    let list = plan::units_to_read(a, snap.listing, snap.missing_sources);
    let w = weight_of_units(list, snap.units, snap.records);
    lemma_unit_weights(list, snap.units, snap.records);
    let ids = plan::units_to_drop(a, snap.listing, snap.missing_sources);
    lemma_pruned_top(a, ids, w);
    let p = Progress { graph: laws::pruned(a, snap), stats: merge::start_stats(a, snap) };
    lemma_room_units(p, list, snap.units, snap.records, snap.missing_sources, w);
    let deps = merge::all_deps(snap.units, snap.missing_sources);
    let records = merge::new_records(a, deps);
    upkeep::law_new_records_are_read(a, snap.units, snap.missing_sources);
    assert forall|i: int| 0 <= i < records.len() implies store::first_named(
        snap.records,
        (#[trigger] records[i]).name,
    ) is Some by {
        assert(upkeep::is_wanted(a, snap.units, snap.missing_sources, records[i]));
    }
    laws::law_what_is_planned_is_enough(g, snap, full, snap.missing_sources);
}

// ---- what is said -------------------------------------------------------

/// Whether the error tells a unit that was not read, or a record of a unit that
/// was not read.
pub open spec fn tells_unread(
    g: GraphV,
    list: Seq<StampV>,
    units: Seq<UnitDataV>,
    read: Seq<RecordDataV>,
    e: MergeErrorV,
) -> bool {
    match e {
        MergeErrorV::Unit { name } => {
            &&& exists|i: int| 0 <= i < list.len() && (#[trigger] list[i]).name == name
            &&& forall|i: int| 0 <= i < units.len() ==> (#[trigger] units[i]).name != name
        },
        MergeErrorV::Record { unit, name, file_path } => {
            &&& exists|i: int| 0 <= i < list.len() && (#[trigger] list[i]).name == unit
            &&& is_dep_of(units, unit, name, file_path)
            &&& forall|i: int| 0 <= i < read.len() ==> (#[trigger] read[i]).name != name
            &&& forall|r: RecordV| #[trigger] g.records.contains(r) ==> r.name != name
        },
        MergeErrorV::Full => true,
    }
}

/// Whether what was read of the unit has the record, at the path.
pub open spec fn is_dep_of(
    units: Seq<UnitDataV>,
    unit: Seq<char>,
    name: Seq<char>,
    file_path: Seq<char>,
) -> bool {
    exists|u: UnitDataV, d: RecordDepV| #[trigger]
        units.contains(u) && #[trigger] u.deps.contains(d) && u.name == unit && d.name == name
            && d.file_path == file_path
}

/// What was read under a name is the first of that name.
pub proof fn law_first_readings_count<T: db::HasName>(s: Seq<T>, name: Seq<char>)
    ensures
        match store::first_named(s, name) {
            Some(x) => exists|k: int|
                {
                    &&& 0 <= k < s.len()
                    &&& #[trigger] s[k] == x
                    &&& x.key() == name
                    &&& forall|i: int| 0 <= i < k ==> (#[trigger] s[i]).key() != name
                },
            None => forall|i: int| 0 <= i < s.len() ==> (#[trigger] s[i]).key() != name,
        },
    decreases s.len(),
{
    if s.len() > 0 {
        let t = s.drop_first();
        if s[0].key() != name {
            law_first_readings_count(t, name);
            assert forall|i: int| 0 <= i < t.len() implies t[i] == #[trigger] s[i + 1] by {}
            match store::first_named(s, name) {
                Some(x) => {
                    let k = choose|k: int|
                        {
                            &&& 0 <= k < t.len()
                            &&& #[trigger] t[k] == x
                            &&& x.key() == name
                            &&& forall|i: int| 0 <= i < k ==> (#[trigger] t[i]).key() != name
                        };
                    assert(s[k + 1] == x);
                    assert forall|i: int| 0 <= i < k + 1 implies (#[trigger] s[i]).key() != name by {
                        if i > 0 {
                            assert(t[i - 1].key() != name);
                        }
                    }
                },
                None => {
                    assert forall|i: int| 0 <= i < s.len() implies (#[trigger] s[i]).key()
                        != name by {
                        if i > 0 {
                            assert(t[i - 1].key() != name);
                        }
                    }
                },
            }
        } else {
            assert(s[0] == store::first_named(s, name).unwrap());
        }
    }
}

proof fn lemma_deps_unread(
    p: Progress,
    unit_id: i64,
    unit: Seq<char>,
    deps: Seq<RecordDepV>,
    read: Seq<RecordDataV>,
)
    ensures
        match merge::after_deps(p, unit_id, unit, deps, read) {
            Err(MergeErrorV::Unit { name }) => false,
            Err(MergeErrorV::Record { unit: u, name, file_path }) => {
                &&& u == unit
                &&& exists|i: int|
                    0 <= i < deps.len() && (#[trigger] deps[i]).name == name && deps[i].file_path
                        == file_path
                &&& store::first_named(read, name) is None
                &&& db::by_name(p.graph.records, name) is None
            },
            Err(MergeErrorV::Full) => true,
            Ok(q) => growth::starts(p.graph.records, q.graph.records),
        },
    decreases deps.len(),
{
    laws::lemma_deps_same(p, unit_id, unit, deps, read, read);
    if deps.len() > 0 {
        let d = deps[0];
        let rest = deps.drop_first();
        match merge::after_dep(p, unit_id, unit, d, read) {
            Ok(p1) => {
                laws::lemma_dep_starts(p, unit_id, unit, d, read);
                lemma_deps_unread(p1, unit_id, unit, rest, read);
                if let Err(MergeErrorV::Record { unit: u, name, file_path }) = merge::after_deps(
                    p1,
                    unit_id,
                    unit,
                    rest,
                    read,
                ) {
                    let i = choose|i: int|
                        0 <= i < rest.len() && (#[trigger] rest[i]).name == name
                            && rest[i].file_path == file_path;
                    assert(deps[i + 1] == rest[i]);
                    if db::by_name(p.graph.records, name) is Some {
                        laws::lemma_still_known(p.graph, p1.graph, name);
                    }
                }
            },
            Err(e) => {
                assert(deps[0] == d);
            },
        }
    }
}

proof fn lemma_units_unread(
    p: Progress,
    list: Seq<StampV>,
    units: Seq<UnitDataV>,
    read: Seq<RecordDataV>,
    missing: Seq<Seq<char>>,
)
    ensures
        merge::after_units(p, list, units, read, missing) matches Err(e) ==> tells_unread(
            p.graph,
            list,
            units,
            read,
            e,
        ),
    decreases list.len(),
{
    if list.len() > 0 {
        let s = list[0];
        let rest = list.drop_first();
        assert(list[0].name == s.name);
        law_first_readings_count(units, s.name);
        if let Some(data) = store::first_named(units, s.name) {
            let k = choose|k: int| 0 <= k < units.len() && #[trigger] units[k] == data;
            laws::lemma_unit_same(p, s, units, read, units, read, missing);
            if !plan::main_missing(data, missing) {
                if let Some((g1, id)) = merge::with_bare_unit(p.graph, s, data) {
                    lemma_deps_unread(
                        Progress { graph: g1, stats: p.stats },
                        id,
                        s.name,
                        data.deps,
                        read,
                    );
                    assert(g1.records == p.graph.records);
                    if let Err(MergeErrorV::Record { unit, name, file_path }) = merge::after_deps(
                        Progress { graph: g1, stats: p.stats },
                        id,
                        s.name,
                        data.deps,
                        read,
                    ) {
                        let i = choose|i: int|
                            0 <= i < data.deps.len() && (#[trigger] data.deps[i]).name == name
                                && data.deps[i].file_path == file_path;
                        assert(units.contains(data));
                        assert(data.deps.contains(data.deps[i]));
                        assert(is_dep_of(units, unit, name, file_path));
                        law_first_readings_count(read, name);
                        lemma_no_record(p.graph, name);
                    }
                }
            }
            if let Ok(p1) = merge::after_unit(p, s, units, read, missing) {
                let p2 = Progress {
                    graph: p1.graph,
                    stats: MergeStats {
                        units_processed: (p1.stats.units_processed + 1) as usize,
                        ..p1.stats
                    },
                };
                lemma_units_unread(p2, rest, units, read, missing);
                if let Err(e) = merge::after_units(p2, rest, units, read, missing) {
                    lemma_unread_earlier(p.graph, p2.graph, list, units, read, e);
                }
            }
        }
    }
}

proof fn lemma_no_record(g: GraphV, name: Seq<char>)
    requires
        db::by_name(g.records, name) is None,
    ensures
        forall|r: RecordV| #[trigger] g.records.contains(r) ==> r.name != name,
{
    assert forall|r: RecordV| #[trigger] g.records.contains(r) implies r.name != name by {
        let i = choose|i: int| 0 <= i < g.records.len() && g.records[i] == r;
        assert(!db::has_name_at(g.records, name, i));
    }
}

proof fn lemma_unread_earlier(
    a: GraphV,
    b: GraphV,
    list: Seq<StampV>,
    units: Seq<UnitDataV>,
    read: Seq<RecordDataV>,
    e: MergeErrorV,
)
    requires
        list.len() > 0,
        growth::starts(a.records, b.records),
        tells_unread(b, list.drop_first(), units, read, e),
    ensures
        tells_unread(a, list, units, read, e),
{
    let rest = list.drop_first();
    match e {
        MergeErrorV::Unit { name } => {
            let i = choose|i: int| 0 <= i < rest.len() && (#[trigger] rest[i]).name == name;
            assert(list[i + 1].name == name);
        },
        MergeErrorV::Record { unit, name, file_path } => {
            let i = choose|i: int| 0 <= i < rest.len() && (#[trigger] rest[i]).name == unit;
            assert(list[i + 1].name == unit);
            assert forall|r: RecordV| #[trigger] a.records.contains(r) implies r.name != name by {
                let k = choose|k: int| 0 <= k < a.records.len() && a.records[k] == r;
                assert(b.records[k] == r);
                assert(b.records.contains(r));
            }
        },
        MergeErrorV::Full => {},
    }
}

/// A merge that fails for want of a reading tells which: a unit that it had to
/// read and that was not read, or a record of such a unit that was not read and
/// that the graph does not have.
pub proof fn law_errors_tell_what_was_not_read(g: GraphV, snap: SnapshotV, full: bool)
    ensures
        merge::merged(g, snap, full) matches Err(e) ==> tells_unread(
            merge::base(g, full),
            plan::units_to_read(merge::base(g, full), snap.listing, snap.missing_sources),
            snap.units,
            snap.records,
            e,
        ),
{
    let a = merge::base(g, full);
    let list = plan::units_to_read(a, snap.listing, snap.missing_sources);
    laws::lemma_pruned_tables(a, plan::units_to_drop(a, snap.listing, snap.missing_sources));
    let p = Progress { graph: laws::pruned(a, snap), stats: merge::start_stats(a, snap) };
    lemma_units_unread(p, list, snap.units, snap.records, snap.missing_sources);
}

/// What is said of a merge that failed names the unit, or the unit, the record and
/// its path.
pub proof fn law_errors_are_told(a: Seq<char>, b: Seq<char>, c: Seq<char>)
    ensures
        merge::error_text(MergeErrorV::Unit { name: a }) == "unit 처리: "@ + a,
        merge::error_text(MergeErrorV::Record { unit: a, name: b, file_path: c })
            == "unit 처리: "@ + a + ": record 수집: "@ + b + " ("@ + c + ")"@,
{
}

} // verus!
