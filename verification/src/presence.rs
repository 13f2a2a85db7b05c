//! Which units a graph has after a merge, whatever else it holds.
use vstd::prelude::*;

use crate::db::{self, FileV, GraphV, UnitV};
use crate::ffi::RecordDepV;
use crate::growth;
use crate::laws;
use crate::merge::{self, MergeErrorV, MergeStats, Progress};
use crate::mirror;
use crate::plan;
use crate::rows;
use crate::store::{self, RecordDataV, SnapshotV, StampV, UnitDataV};

verus! {

// ---- files and units ----------------------------------------------------

/// Whether files and units keep their keys.
pub open spec fn units_keyed(g: GraphV) -> bool {
    &&& db::ascending(g.files)
    &&& db::names_differ(g.files)
    &&& db::ascending(g.units)
    &&& db::names_differ(g.units)
}

/// Whether the graph has the main file of each unit that has one.
pub open spec fn mains_known(g: GraphV) -> bool {
    forall|u: UnitV| #[trigger]
        g.units.contains(u) ==> (u.main_file_id matches Some(id) ==> db::by_id(
            g.files,
            id,
        ) is Some)
}

/// Whether the main file of each unit of the graph is there.
pub open spec fn mains_there(g: GraphV, missing: Seq<Seq<char>>) -> bool {
    forall|u: UnitV| #[trigger] g.units.contains(u) ==> !plan::source_gone(g, missing, u)
}

/// Whether the units stayed, and files were only added.
spec fn units_stayed(a: GraphV, b: GraphV) -> bool {
    &&& units_keyed(b)
    &&& b.units == a.units
    &&& growth::starts(a.files, b.files)
}

proof fn lemma_file_added(g: GraphV, path: Seq<char>)
    requires
        units_keyed(g),
        merge::with_file(g, path) is Some,
    ensures
        ({
            let (b, id) = merge::with_file(g, path).unwrap();
            &&& units_stayed(g, b)
            &&& db::by_id(b.files, id) == Some(FileV { id, path })
        }),
{
    let (b, id) = merge::with_file(g, path).unwrap();
    match db::by_name(g.files, path) {
        Some(f) => {
            growth::lemma_by_name_found(g.files, path);
            growth::lemma_by_id_member(g.files, f);
        },
        None => {
            let f = FileV { id, path };
            growth::lemma_next_id_new(g.files);
            db::lemma_ascending_push(g.files, f);
            db::lemma_names_push(g.files, f);
            growth::lemma_by_id_push(g.files, f, id);
        },
    }
}

proof fn lemma_deps_added(
    p: Progress,
    unit_id: i64,
    unit: Seq<char>,
    deps: Seq<RecordDepV>,
    read: Seq<RecordDataV>,
)
    requires
        units_keyed(p.graph),
        merge::after_deps(p, unit_id, unit, deps, read) is Ok,
    ensures
        units_stayed(p.graph, merge::after_deps(p, unit_id, unit, deps, read)->Ok_0.graph),
    decreases deps.len(),
{
    if deps.len() > 0 {
        let d = deps[0];
        let p1 = merge::after_dep(p, unit_id, unit, d, read)->Ok_0;
        if db::by_name(p.graph.records, d.name) is None {
            let data = store::first_named(read, d.name).unwrap();
            lemma_file_added(p.graph, d.file_path);
            let (g1, id) = merge::with_bare_record(p.graph, d.name, d.file_path).unwrap();
            laws::lemma_occurrences_len(g1, id, data.occurrences);
        }
        assert(units_stayed(p.graph, p1.graph));
        lemma_deps_added(p1, unit_id, unit, deps.drop_first(), read);
    }
}

// ---- the step for one unit ----------------------------------------------

/// Whether the unit of the name went, and nothing else of units and files.
spec fn name_left(a: GraphV, b: GraphV, name: Seq<char>) -> bool {
    &&& units_keyed(b)
    &&& b.files == a.files
    &&& db::by_name(b.units, name) is None
    &&& forall|u: UnitV| #[trigger]
        b.units.contains(u) <==> a.units.contains(u) && u.name != name
}

proof fn lemma_name_left(g: GraphV, name: Seq<char>)
    requires
        units_keyed(g),
    ensures
        name_left(g, merge::without_named(g, name), name),
{
    let b = merge::without_named(g, name);
    match db::by_name(g.units, name) {
        Some(v) => {
            let p = |u: UnitV| u.id != v.id;
            growth::lemma_by_name_found(g.units, name);
            db::lemma_ascending_keep(g.units, p);
            db::lemma_names_keep(g.units, p);
            assert forall|u: UnitV| #[trigger]
                b.units.contains(u) <==> g.units.contains(u) && u.name != name by {
                rows::lemma_keep_members(g.units, p, u);
                if g.units.contains(u) {
                    growth::lemma_by_name_member(g.units, u);
                    growth::lemma_by_id_member(g.units, u);
                    growth::lemma_by_id_member(g.units, v);
                }
            }
            if db::by_name(b.units, name) is Some {
                growth::lemma_by_name_found(b.units, name);
                assert(b.units.contains(db::by_name(b.units, name).unwrap()));
            }
        },
        None => {
            assert forall|u: UnitV| #[trigger] g.units.contains(u) implies u.name != name by {
                growth::lemma_by_name_member(g.units, u);
            }
        },
    }
}

/// Whether `n` took the place of the unit of its name.
spec fn name_came(a: GraphV, b: GraphV, s: StampV, data: UnitDataV, n: UnitV) -> bool {
    &&& units_keyed(b)
    &&& growth::starts(a.files, b.files)
    &&& n.name == s.name
    &&& n.mtime_ns == s.mtime_ns
    &&& mirror::main_true(b, n, data.main_file)
    &&& forall|u: UnitV| #[trigger]
        b.units.contains(u) <==> (a.units.contains(u) && u.name != s.name) || u == n
}

proof fn lemma_name_came(g: GraphV, s: StampV, data: UnitDataV)
    requires
        units_keyed(g),
        merge::with_bare_unit(g, s, data) is Some,
    ensures
        ({
            let b = merge::with_bare_unit(g, s, data).unwrap().0;
            name_came(g, b, s, data, b.units.last())
        }),
{
    let b = merge::with_bare_unit(g, s, data).unwrap().0;
    let g0 = merge::without_named(g, s.name);
    lemma_name_left(g, s.name);
    let has_main = data.main_file is Some && data.main_file.unwrap().len() > 0;
    let g1 = if has_main {
        merge::with_file(g0, data.main_file.unwrap()).unwrap().0
    } else {
        g0
    };
    if has_main {
        lemma_file_added(g0, data.main_file.unwrap());
    }
    let n = b.units.last();
    assert(b == (GraphV { units: g1.units.push(n), ..g1 }));
    growth::lemma_next_id_new(g1.units);
    db::lemma_ascending_push(g1.units, n);
    db::lemma_names_push(g1.units, n);
    assert forall|u: UnitV| #[trigger]
        b.units.contains(u) <==> (g.units.contains(u) && u.name != s.name) || u == n by {
        assert(g0.units.contains(u) <==> g.units.contains(u) && u.name != s.name);
        if b.units.contains(u) && u != n {
            let k = choose|k: int| 0 <= k < b.units.len() && b.units[k] == u;
            assert(g1.units[k] == u);
        }
        if g0.units.contains(u) {
            let k = choose|k: int| 0 <= k < g0.units.len() && g0.units[k] == u;
            assert(b.units[k] == u);
        }
        assert(b.units[g1.units.len() as int] == n);
    }
}

/// The step for one unit: a unit whose main file is missing is not in the graph
/// afterwards, any other is, with its time.
proof fn lemma_unit_step(
    p: Progress,
    s: StampV,
    units_read: Seq<UnitDataV>,
    read: Seq<RecordDataV>,
    missing: Seq<Seq<char>>,
)
    requires
        units_keyed(p.graph),
        merge::after_unit(p, s, units_read, read, missing) is Ok,
    ensures
        ({
            let b = merge::after_unit(p, s, units_read, read, missing)->Ok_0.graph;
            &&& store::first_named(units_read, s.name) matches Some(data)
            &&& if plan::main_missing(data, missing) {
                name_left(p.graph, b, s.name)
            } else {
                name_came(p.graph, b, s, data, b.units.last())
            }
        }),
{
    let g = p.graph;
    let b = merge::after_unit(p, s, units_read, read, missing)->Ok_0.graph;
    let data = store::first_named(units_read, s.name).unwrap();
    if plan::main_missing(data, missing) {
        lemma_name_left(g, s.name);
    } else {
        lemma_name_came(g, s, data);
        let (g1, id) = merge::with_bare_unit(g, s, data).unwrap();
        lemma_deps_added(Progress { graph: g1, stats: p.stats }, id, s.name, data.deps, read);
        if let Some(f) = g1.units.last().main_file_id {
            growth::lemma_by_id_starts(g1.files, b.files, f);
        }
        assert(b.units == g1.units);
    }
}

// ---- the steps for all units --------------------------------------------

/// Whether what was read of the unit of the name has a main file that is
/// missing.
pub open spec fn is_skipped(
    units_read: Seq<UnitDataV>,
    missing: Seq<Seq<char>>,
    name: Seq<char>,
) -> bool {
    match store::first_named(units_read, name) {
        Some(data) => plan::main_missing(data, missing),
        None => false,
    }
}

/// Whether the graph has the name after the steps for the units of the list.
pub open spec fn has_after(
    g: GraphV,
    list: Seq<StampV>,
    units_read: Seq<UnitDataV>,
    missing: Seq<Seq<char>>,
    name: Seq<char>,
) -> bool {
    if exists|i: int| db::has_name_at(list, name, i) {
        !is_skipped(units_read, missing, name)
    } else {
        db::by_name(g.units, name) is Some
    }
}

/// Whether a unit is one that the graph had and the list has not, or has the
/// time that the list gives it.
pub open spec fn old_or_stamped(a: GraphV, list: Seq<StampV>, u: UnitV) -> bool {
    ||| a.units.contains(u) && forall|i: int| !db::has_name_at(list, u.name, i)
    ||| exists|i: int| #[trigger]
        db::has_name_at(list, u.name, i) && list[i].mtime_ns == u.mtime_ns
}

proof fn lemma_mains_step(
    a: GraphV,
    b: GraphV,
    s: StampV,
    data: UnitDataV,
    missing: Seq<Seq<char>>,
)
    requires
        mains_known(a),
        mains_there(a, missing),
        if plan::main_missing(data, missing) {
            name_left(a, b, s.name)
        } else {
            name_came(a, b, s, data, b.units.last())
        },
    ensures
        mains_known(b),
        mains_there(b, missing),
{
    assert forall|u: UnitV| #[trigger] b.units.contains(u) implies (u.main_file_id matches Some(
        id,
    ) ==> db::by_id(b.files, id) is Some) && !plan::source_gone(b, missing, u) by {
        if a.units.contains(u) && u.name != s.name {
            assert(!plan::source_gone(a, missing, u));
            if let Some(id) = u.main_file_id {
                growth::lemma_by_id_starts(a.files, b.files, id);
            }
        }
    }
}

pub proof fn lemma_units_steps(
    p: Progress,
    list: Seq<StampV>,
    units_read: Seq<UnitDataV>,
    read: Seq<RecordDataV>,
    missing: Seq<Seq<char>>,
)
    requires
        units_keyed(p.graph),
        merge::after_units(p, list, units_read, read, missing) is Ok,
    ensures
        ({
            let b = merge::after_units(p, list, units_read, read, missing)->Ok_0.graph;
            &&& units_keyed(b)
            &&& forall|u: UnitV| #[trigger]
                b.units.contains(u) ==> old_or_stamped(p.graph, list, u)
            &&& forall|name: Seq<char>|
                #[trigger] db::by_name(b.units, name) is Some <==> has_after(
                    p.graph,
                    list,
                    units_read,
                    missing,
                    name,
                )
            &&& mains_known(p.graph) && mains_there(p.graph, missing) ==> mains_known(b)
                && mains_there(b, missing)
        }),
    decreases list.len(),
{
    let a = p.graph;
    let b = merge::after_units(p, list, units_read, read, missing)->Ok_0.graph;
    if list.len() == 0 {
        assert forall|name: Seq<char>, k: int| !#[trigger] db::has_name_at(list, name, k) by {}
    } else {
        let s = list[0];
        let rest = list.drop_first();
        let p1 = merge::after_unit(p, s, units_read, read, missing)->Ok_0;
        let g1 = p1.graph;
        let data = store::first_named(units_read, s.name).unwrap();
        lemma_unit_step(p, s, units_read, read, missing);
        let p2 = Progress {
            graph: g1,
            stats: MergeStats {
                units_processed: (p1.stats.units_processed + 1) as usize,
                ..p1.stats
            },
        };
        if mains_known(a) && mains_there(a, missing) {
            lemma_mains_step(a, g1, s, data, missing);
        }
        lemma_units_steps(p2, rest, units_read, read, missing);
        assert forall|u: UnitV| #[trigger] b.units.contains(u) implies old_or_stamped(
            a,
            list,
            u,
        ) by {
            assert(old_or_stamped(g1, rest, u));
            lemma_stamped_step(a, g1, list, data, missing, u);
        }
        assert forall|name: Seq<char>|
            #[trigger] db::by_name(b.units, name) is Some <==> has_after(
                a,
                list,
                units_read,
                missing,
                name,
            ) by {
            assert(db::by_name(b.units, name) is Some <==> has_after(
                g1,
                rest,
                units_read,
                missing,
                name,
            ));
            lemma_names_step(a, g1, list, units_read, missing, name);
        }
    }
}

proof fn lemma_stamped_step(
    a: GraphV,
    b: GraphV,
    list: Seq<StampV>,
    data: UnitDataV,
    missing: Seq<Seq<char>>,
    u: UnitV,
)
    requires
        list.len() > 0,
        if plan::main_missing(data, missing) {
            name_left(a, b, list[0].name)
        } else {
            name_came(a, b, list[0], data, b.units.last())
        },
        old_or_stamped(b, list.drop_first(), u),
    ensures
        old_or_stamped(a, list, u),
{
    let s = list[0];
    let rest = list.drop_first();
    if exists|i: int| #[trigger]
        db::has_name_at(rest, u.name, i) && rest[i].mtime_ns == u.mtime_ns {
        let i = choose|i: int| #[trigger]
            db::has_name_at(rest, u.name, i) && rest[i].mtime_ns == u.mtime_ns;
        assert(db::has_name_at(list, u.name, i + 1));
        assert(list[i + 1] == rest[i]);
    } else {
        assert(b.units.contains(u));
        if u.name == s.name {
            assert(db::has_name_at(list, u.name, 0));
        } else {
            assert(a.units.contains(u));
            assert forall|i: int| !db::has_name_at(list, u.name, i) by {
                if db::has_name_at(list, u.name, i) {
                    assert(db::has_name_at(rest, u.name, i - 1));
                }
            }
        }
    }
}

proof fn lemma_names_step(
    a: GraphV,
    b: GraphV,
    list: Seq<StampV>,
    units_read: Seq<UnitDataV>,
    missing: Seq<Seq<char>>,
    name: Seq<char>,
)
    requires
        units_keyed(a),
        list.len() > 0,
        store::first_named(units_read, list[0].name) matches Some(data) && if plan::main_missing(
            data,
            missing,
        ) {
            name_left(a, b, list[0].name)
        } else {
            name_came(a, b, list[0], data, b.units.last())
        },
    ensures
        has_after(b, list.drop_first(), units_read, missing, name) == has_after(
            a,
            list,
            units_read,
            missing,
            name,
        ),
{
    let s = list[0];
    let rest = list.drop_first();
    if exists|i: int| db::has_name_at(rest, name, i) {
        let i = choose|i: int| db::has_name_at(rest, name, i);
        assert(db::has_name_at(rest, name, i));
        assert(db::has_name_at(list, name, i + 1));
    }
    if name == s.name {
        assert(db::has_name_at(list, name, 0));
        if !plan::main_missing(store::first_named(units_read, s.name).unwrap(), missing) {
            assert(b.units.contains(b.units.last()));
            growth::lemma_by_name_member(b.units, b.units.last());
        }
    } else {
        if db::by_name(b.units, name) is Some {
            growth::lemma_by_name_found(b.units, name);
            let u = db::by_name(b.units, name).unwrap();
            assert(a.units.contains(u));
            growth::lemma_by_name_member(a.units, u);
        }
        if db::by_name(a.units, name) is Some {
            growth::lemma_by_name_found(a.units, name);
            let u = db::by_name(a.units, name).unwrap();
            assert(b.units.contains(u));
            growth::lemma_by_name_member(b.units, u);
        }
        if exists|i: int| db::has_name_at(list, name, i) {
            let i = choose|i: int| db::has_name_at(list, name, i);
            assert(db::has_name_at(list, name, i));
            assert(db::has_name_at(rest, name, i - 1));
        }
    }
}

// ---- removing units -----------------------------------------------------

proof fn lemma_units_left(g: GraphV, ids: Seq<i64>)
    requires
        units_keyed(g),
    ensures
        ({
            let b = merge::without_units(g, ids);
            &&& units_keyed(b)
            &&& b.files == g.files
            &&& forall|u: UnitV| #[trigger]
                b.units.contains(u) <==> g.units.contains(u) && !ids.contains(u.id)
        }),
    decreases ids.len(),
{
    if ids.len() > 0 {
        let b = merge::without_units(g, ids);
        let g1 = merge::without_unit(g, ids[0]);
        let rest = ids.drop_first();
        let p = |u: UnitV| u.id != ids[0];
        db::lemma_ascending_keep(g.units, p);
        db::lemma_names_keep(g.units, p);
        lemma_units_left(g1, rest);
        assert forall|u: UnitV| #[trigger]
            b.units.contains(u) <==> g.units.contains(u) && !ids.contains(u.id) by {
            rows::lemma_keep_members(g.units, p, u);
            if ids.contains(u.id) {
                let i = choose|i: int| 0 <= i < ids.len() && ids[i] == u.id;
                if i > 0 {
                    assert(rest[i - 1] == u.id);
                }
            }
            if rest.contains(u.id) {
                let i = choose|i: int| 0 <= i < rest.len() && rest[i] == u.id;
                assert(ids[i + 1] == u.id);
            }
        }
    }
}

/// After a merge, the units are those after its steps.
proof fn lemma_merged_units(g: GraphV, snap: SnapshotV, full: bool)
    requires
        merge::merged(g, snap, full) is Ok,
    ensures
        ({
            let b = merge::merged(g, snap, full)->Ok_0.graph;
            let c = laws::filled(g, snap, full)->Ok_0.graph;
            laws::filled(g, snap, full) is Ok && b.units == c.units && b.files == c.files
        }),
{
}

// ---- main files ---------------------------------------------------------

/// After a merge, no unit of the graph has a main file that is missing.
pub proof fn law_merge_leaves_no_unit_without_its_main_file(
    g: GraphV,
    snap: SnapshotV,
    full: bool,
)
    requires
        merge::base(g, full).keyed(),
        mains_known(merge::base(g, full)),
        merge::merged(g, snap, full) is Ok,
    ensures
        mains_known(merge::merged(g, snap, full)->Ok_0.graph),
        mains_there(merge::merged(g, snap, full)->Ok_0.graph, snap.missing_sources),
{
    let a = merge::base(g, full);
    let missing = snap.missing_sources;
    let g1 = laws::pruned(a, snap);
    lemma_units_left(a, plan::units_to_drop(a, snap.listing, missing));
    assert forall|u: UnitV| #[trigger] g1.units.contains(u) implies !plan::source_gone(
        g1,
        missing,
        u,
    ) && (u.main_file_id matches Some(id) ==> db::by_id(g1.files, id) is Some) by {
        laws::lemma_drops(a, snap.listing, missing, u);
    }
    lemma_units_steps(
        Progress { graph: g1, stats: merge::start_stats(a, snap) },
        plan::units_to_read(a, snap.listing, missing),
        snap.units,
        snap.records,
        missing,
    );
    lemma_merged_units(g, snap, full);
    let b = merge::merged(g, snap, full)->Ok_0.graph;
    let c = laws::filled(g, snap, full)->Ok_0.graph;
    assert forall|u: UnitV| #[trigger] b.units.contains(u) implies !plan::source_gone(
        b,
        missing,
        u,
    ) && (u.main_file_id matches Some(id) ==> db::by_id(b.files, id) is Some) by {
        assert(c.units.contains(u));
    }
}

// ---- again --------------------------------------------------------------

/// Whether the graph has the units that are listed, with their times, and no
/// other.
pub open spec fn has_listed(g: GraphV, listing: Seq<StampV>) -> bool {
    &&& forall|i: int|
        0 <= i < listing.len() ==> (db::by_name(
            g.units,
            (#[trigger] listing[i]).name,
        ) matches Some(u) && u.mtime_ns == listing[i].mtime_ns)
    &&& forall|u: UnitV| #[trigger]
        g.units.contains(u) ==> exists|i: int| db::has_name_at(listing, u.name, i)
}

/// What a merge has to read and remove depends on nothing of the graph but its
/// units and files.
pub proof fn law_plans_need_only_units_and_files(
    g: GraphV,
    h: GraphV,
    listing: Seq<StampV>,
    missing: Seq<Seq<char>>,
)
    requires
        h.units == g.units,
        h.files == g.files,
    ensures
        plan::units_to_read(h, listing, missing) == plan::units_to_read(g, listing, missing),
        plan::units_to_drop(h, listing, missing) == plan::units_to_drop(g, listing, missing),
        plan::main_paths(h) == plan::main_paths(g),
{
    rows::lemma_gather_same(
        listing,
        plan::pick_read(h, missing),
        plan::pick_read(g, missing),
    );
    rows::lemma_gather_same(
        g.units,
        plan::pick_drop(h, listing, missing),
        plan::pick_drop(g, listing, missing),
    );
    rows::lemma_gather_same(g.units, plan::pick_main(h), plan::pick_main(g));
}

/// A merge that has nothing to read and nothing to remove leaves the graph as it
/// is, and tells no more of it than how many units are listed.
pub proof fn law_merge_without_a_plan_does_nothing(g: GraphV, snap: SnapshotV)
    requires
        plan::units_to_read(g, snap.listing, snap.missing_sources).len() == 0,
        plan::units_to_drop(g, snap.listing, snap.missing_sources).len() == 0,
    ensures
        merge::merged(g, snap, false) == Ok::<Progress, MergeErrorV>(
            Progress {
                graph: g,
                stats: MergeStats {
                    units_total: snap.listing.len() as usize,
                    ..merge::no_stats()
                },
            },
        ),
{
}

/// A merge of a store whose units the graph has, with their times, and none of
/// whose main files is missing, reads nothing, removes nothing and leaves the
/// graph as it is.
pub proof fn law_merge_of_a_known_store_does_nothing(g: GraphV, snap: SnapshotV)
    requires
        has_listed(g, snap.listing),
        mains_there(g, snap.missing_sources),
    ensures
        plan::units_to_read(g, snap.listing, snap.missing_sources).len() == 0,
        plan::units_to_drop(g, snap.listing, snap.missing_sources).len() == 0,
        merge::merged(g, snap, false) == Ok::<Progress, MergeErrorV>(
            Progress {
                graph: g,
                stats: MergeStats {
                    units_total: snap.listing.len() as usize,
                    ..merge::no_stats()
                },
            },
        ),
{
    let f = plan::pick_read(g, snap.missing_sources);
    let d = plan::pick_drop(g, snap.listing, snap.missing_sources);
    assert forall|i: int| 0 <= i < snap.listing.len() implies f(#[trigger] snap.listing[i])
        == Seq::<StampV>::empty() by {}
    rows::lemma_gather_nothing(snap.listing, f);
    assert forall|i: int| 0 <= i < g.units.len() implies d(#[trigger] g.units[i]) == Seq::<
        i64,
    >::empty() by {
        let u = g.units[i];
        assert(g.units.contains(u));
    }
    rows::lemma_gather_nothing(g.units, d);
    law_merge_without_a_plan_does_nothing(g, snap);
}

/// After a merge that finds no main file missing, the graph has the units that
/// are listed, with their times, and no other.
pub proof fn law_merge_leaves_what_is_listed(g: GraphV, snap: SnapshotV, full: bool)
    requires
        merge::base(g, full).keyed(),
        db::names_differ(snap.listing),
        merge::merged(g, snap, full) is Ok,
        mains_there(merge::base(g, full), snap.missing_sources),
        forall|i: int|
            0 <= i < snap.listing.len() ==> !is_skipped(
                snap.units,
                snap.missing_sources,
                (#[trigger] snap.listing[i]).name,
            ),
    ensures
        has_listed(merge::merged(g, snap, full)->Ok_0.graph, snap.listing),
{
    let a = merge::base(g, full);
    let missing = snap.missing_sources;
    let list = plan::units_to_read(a, snap.listing, missing);
    let g1 = laws::pruned(a, snap);
    let b = merge::merged(g, snap, full)->Ok_0.graph;
    lemma_units_left(a, plan::units_to_drop(a, snap.listing, missing));
    lemma_units_steps(
        Progress { graph: g1, stats: merge::start_stats(a, snap) },
        list,
        snap.units,
        snap.records,
        missing,
    );
    lemma_merged_units(g, snap, full);
    let c = laws::filled(g, snap, full)->Ok_0.graph;
    assert forall|u: UnitV| #[trigger] b.units.contains(u) implies exists|i: int|
        #[trigger] db::has_name_at(snap.listing, u.name, i) && snap.listing[i].mtime_ns
            == u.mtime_ns by {
        assert(c.units.contains(u));
        assert(old_or_stamped(g1, list, u));
        lemma_listed_time(a, snap, u);
    }
    assert forall|i: int| 0 <= i < snap.listing.len() implies (db::by_name(
        b.units,
        (#[trigger] snap.listing[i]).name,
    ) matches Some(u) && u.mtime_ns == snap.listing[i].mtime_ns) by {
        let s = snap.listing[i];
        assert(!is_skipped(snap.units, missing, s.name));
        assert(snap.listing.contains(s));
        laws::lemma_reads(a, snap.listing, missing, s);
        if plan::to_read(a, missing, s) {
            let j = choose|j: int| 0 <= j < list.len() && list[j] == s;
            assert(db::has_name_at(list, s.name, j));
        } else {
            growth::lemma_by_name_found(a.units, s.name);
            let v = db::by_name(a.units, s.name).unwrap();
            assert(!plan::source_gone(a, missing, v));
            assert(db::has_name_at(snap.listing, v.name, i));
            laws::lemma_drops(a, snap.listing, missing, v);
            assert(g1.units.contains(v));
            growth::lemma_by_name_member(g1.units, v);
        }
        assert(has_after(g1, list, snap.units, missing, s.name));
        assert(db::by_name(c.units, s.name) is Some);
        growth::lemma_by_name_found(b.units, s.name);
        let u = db::by_name(b.units, s.name).unwrap();
        assert(b.units.contains(u));
        let k = choose|k: int| #[trigger]
            db::has_name_at(snap.listing, u.name, k) && snap.listing[k].mtime_ns == u.mtime_ns;
        assert(db::has_name_at(snap.listing, u.name, k));
        db::lemma_by_name(snap.listing, k);
        db::lemma_by_name(snap.listing, i);
    }
}

/// A unit that a merge left or put has the time of the listing.
proof fn lemma_listed_time(a: GraphV, snap: SnapshotV, u: UnitV)
    requires
        a.keyed(),
        mains_there(a, snap.missing_sources),
        old_or_stamped(
            laws::pruned(a, snap),
            plan::units_to_read(a, snap.listing, snap.missing_sources),
            u,
        ),
    ensures
        exists|i: int|
            #[trigger] db::has_name_at(snap.listing, u.name, i) && snap.listing[i].mtime_ns
                == u.mtime_ns,
{
    let missing = snap.missing_sources;
    let list = plan::units_to_read(a, snap.listing, missing);
    let g1 = laws::pruned(a, snap);
    lemma_units_left(a, plan::units_to_drop(a, snap.listing, missing));
    if exists|i: int| #[trigger]
        db::has_name_at(list, u.name, i) && list[i].mtime_ns == u.mtime_ns {
        let i = choose|i: int| #[trigger]
            db::has_name_at(list, u.name, i) && list[i].mtime_ns == u.mtime_ns;
        let s = list[i];
        assert(list.contains(s));
        laws::lemma_reads(a, snap.listing, missing, s);
        let k = choose|k: int| 0 <= k < snap.listing.len() && snap.listing[k] == s;
        assert(db::has_name_at(snap.listing, u.name, k));
    } else {
        assert(g1.units.contains(u));
        laws::lemma_drops(a, snap.listing, missing, u);
        let k = choose|k: int| db::has_name_at(snap.listing, u.name, k);
        assert(db::has_name_at(snap.listing, u.name, k));
        let s = snap.listing[k];
        assert(snap.listing.contains(s));
        laws::lemma_reads(a, snap.listing, missing, s);
        growth::lemma_by_name_member(a.units, u);
        if plan::to_read(a, missing, s) {
            let j = choose|j: int| 0 <= j < list.len() && list[j] == s;
            assert(db::has_name_at(list, u.name, j));
        }
    }
}

/// A second merge of the same listing does nothing, where neither merge finds a
/// main file missing.
pub proof fn law_second_merge_does_nothing(
    g: GraphV,
    snap: SnapshotV,
    full: bool,
    again: SnapshotV,
)
    requires
        merge::base(g, full).keyed(),
        db::names_differ(snap.listing),
        merge::merged(g, snap, full) is Ok,
        mains_there(merge::base(g, full), snap.missing_sources),
        forall|i: int|
            0 <= i < snap.listing.len() ==> !is_skipped(
                snap.units,
                snap.missing_sources,
                (#[trigger] snap.listing[i]).name,
            ),
        again.listing == snap.listing,
        mains_there(merge::merged(g, snap, full)->Ok_0.graph, again.missing_sources),
    ensures
        ({
            let b = merge::merged(g, snap, full)->Ok_0.graph;
            merge::merged(b, again, false) == Ok::<Progress, MergeErrorV>(
                Progress {
                    graph: b,
                    stats: MergeStats {
                        units_total: snap.listing.len() as usize,
                        ..merge::no_stats()
                    },
                },
            )
        }),
{
    law_merge_leaves_what_is_listed(g, snap, full);
    law_merge_of_a_known_store_does_nothing(
        merge::merged(g, snap, full)->Ok_0.graph,
        again,
    );
}

} // verus!
