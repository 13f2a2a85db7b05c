//! What keeping the graph up to date does, in terms of the store and the rows of
//! the tables.
use vstd::prelude::*;

use crate::cli::{self, CommandV, Question};
use crate::db::{self, FileV, GraphV, HasId, HasName, RecordV, UnitV};
use crate::ffi::{self, RecordDepV, UnitDep};
use crate::growth;
use crate::laws;
use crate::meaning;
use crate::merge;
use crate::plain;
use crate::plan;
use crate::rows;
use crate::store::{self, DirEntry, StampV, UnitDataV};

verus! {

// ---- keys ---------------------------------------------------------------

/// Tables keep their keys exactly where ids go up, and neither paths, USRs, names
/// of records nor names of units come twice.
pub proof fn law_keys_are_kept(g: GraphV)
    ensures
        g.keyed() <==> {
            &&& forall|i: int, j: int|
                0 <= i < j < g.files.len() ==> (#[trigger] g.files[i]).id < (
                #[trigger] g.files[j]).id && g.files[i].path != g.files[j].path
            &&& forall|i: int, j: int|
                0 <= i < j < g.symbols.len() ==> (#[trigger] g.symbols[i]).id < (
                #[trigger] g.symbols[j]).id && g.symbols[i].usr != g.symbols[j].usr
            &&& forall|i: int, j: int|
                0 <= i < j < g.records.len() ==> (#[trigger] g.records[i]).id < (
                #[trigger] g.records[j]).id && g.records[i].name != g.records[j].name
            &&& forall|i: int, j: int|
                0 <= i < j < g.units.len() ==> (#[trigger] g.units[i]).id < (
                #[trigger] g.units[j]).id && g.units[i].name != g.units[j].name
            &&& forall|i: int, j: int|
                0 <= i < j < g.occurrences.len() ==> (#[trigger] g.occurrences[i]).id < (
                #[trigger] g.occurrences[j]).id
        },
{
    assert(db::ascending(g.files) && db::names_differ(g.files) <==> forall|i: int, j: int|
        0 <= i < j < g.files.len() ==> (#[trigger] g.files[i]).id < (#[trigger] g.files[j]).id
            && g.files[i].path != g.files[j].path) by {
        if db::ascending(g.files) && db::names_differ(g.files) {
            assert forall|i: int, j: int| 0 <= i < j < g.files.len() implies (
            #[trigger] g.files[i]).id < (#[trigger] g.files[j]).id && g.files[i].path
                != g.files[j].path by {
                assert(g.files[i].rid() < g.files[j].rid());
                assert(g.files[i].key() != g.files[j].key());
            }
        }
    }
    assert(db::ascending(g.symbols) && db::names_differ(g.symbols) <==> forall|i: int, j: int|
        0 <= i < j < g.symbols.len() ==> (#[trigger] g.symbols[i]).id < (
        #[trigger] g.symbols[j]).id && g.symbols[i].usr != g.symbols[j].usr) by {
        if db::ascending(g.symbols) && db::names_differ(g.symbols) {
            assert forall|i: int, j: int| 0 <= i < j < g.symbols.len() implies (
            #[trigger] g.symbols[i]).id < (#[trigger] g.symbols[j]).id && g.symbols[i].usr
                != g.symbols[j].usr by {
                assert(g.symbols[i].rid() < g.symbols[j].rid());
                assert(g.symbols[i].key() != g.symbols[j].key());
            }
        }
    }
    assert(db::ascending(g.records) && db::names_differ(g.records) <==> forall|i: int, j: int|
        0 <= i < j < g.records.len() ==> (#[trigger] g.records[i]).id < (
        #[trigger] g.records[j]).id && g.records[i].name != g.records[j].name) by {
        if db::ascending(g.records) && db::names_differ(g.records) {
            assert forall|i: int, j: int| 0 <= i < j < g.records.len() implies (
            #[trigger] g.records[i]).id < (#[trigger] g.records[j]).id && g.records[i].name
                != g.records[j].name by {
                assert(g.records[i].rid() < g.records[j].rid());
                assert(g.records[i].key() != g.records[j].key());
            }
        }
    }
    assert(db::ascending(g.units) && db::names_differ(g.units) <==> forall|i: int, j: int|
        0 <= i < j < g.units.len() ==> (#[trigger] g.units[i]).id < (#[trigger] g.units[j]).id
            && g.units[i].name != g.units[j].name) by {
        if db::ascending(g.units) && db::names_differ(g.units) {
            assert forall|i: int, j: int| 0 <= i < j < g.units.len() implies (
            #[trigger] g.units[i]).id < (#[trigger] g.units[j]).id && g.units[i].name
                != g.units[j].name by {
                assert(g.units[i].rid() < g.units[j].rid());
                assert(g.units[i].key() != g.units[j].key());
            }
        }
    }
    assert(db::ascending(g.occurrences) <==> forall|i: int, j: int|
        0 <= i < j < g.occurrences.len() ==> (#[trigger] g.occurrences[i]).id < (
        #[trigger] g.occurrences[j]).id) by {
        if db::ascending(g.occurrences) {
            assert forall|i: int, j: int| 0 <= i < j < g.occurrences.len() implies (
            #[trigger] g.occurrences[i]).id < (#[trigger] g.occurrences[j]).id by {
                assert(g.occurrences[i].rid() < g.occurrences[j].rid());
            }
        }
    }
}

// ---- the directory of units ---------------------------------------------

/// Whether the entry is a unit: a file whose name has no dot in front.
pub open spec fn is_unit_entry(e: DirEntry) -> bool {
    e.is_file && (e.name@.len() > 0 ==> e.name@[0] != '.')
}

/// Whether the entry is the last of the units of the name.
pub open spec fn is_last_named(entries: Seq<DirEntry>, name: Seq<char>, k: int) -> bool {
    &&& 0 <= k < entries.len()
    &&& is_unit_entry(entries[k])
    &&& entries[k].name@ == name
    &&& forall|i: int|
        k < i < entries.len() && (#[trigger] entries[i]).name@ == name ==> !is_unit_entry(
            entries[i],
        )
}

/// Whether the time is that of the entry: nanoseconds after 1970, in 64 bits, and
/// zero where there is no such time.
pub open spec fn is_time_of(time: int, e: DirEntry) -> bool {
    match e.modified_ns {
        Some(n) => if n <= i64::MAX as u128 {
            time == n
        } else {
            (n - time) % 0x1_0000_0000_0000_0000 == 0
        },
        None => time == 0,
    }
}

/// Whether the stamp tells the last entry of its name, and the time of that.
pub open spec fn is_stamp_of(entries: Seq<DirEntry>, s: StampV) -> bool {
    exists|k: int| #[trigger]
        is_last_named(entries, s.name, k) && is_time_of(s.mtime_ns as int, entries[k])
}

proof fn lemma_time(e: DirEntry)
    ensures
        is_time_of(store::entry_mtime(e) as int, e),
{
    if let Some(n) = e.modified_ns {
        if n > i64::MAX as u128 {
            let t = n as i64;
            let u = n as u64;
            assert(n & 0xffff_ffff_ffff_ffff == (n as u64) as u128) by (bit_vector);
            assert(n & 0xffff_ffff_ffff_ffff == n % 0x1_0000_0000_0000_0000) by (bit_vector);
            assert((n as i64) == ((n as u64) as i64)) by (bit_vector);
            assert(u < 0x8000_0000_0000_0000 ==> (u as i64) == u);
            assert(u >= 0x8000_0000_0000_0000 ==> (u as i64) as i128 == (u as i128)
                - 0x1_0000_0000_0000_0000i128) by (bit_vector);
        }
    }
}

/// The listing of a directory has each unit once, with the time of its last
/// entry, and nothing else.
pub proof fn law_units_are_listed_with_their_times(entries: Seq<DirEntry>)
    ensures
        ({
            let listing = store::listed(entries);
            &&& forall|i: int, j: int|
                0 <= i < j < listing.len() ==> (#[trigger] listing[i]).name != (
                #[trigger] listing[j]).name
            &&& forall|i: int|
                0 <= i < listing.len() ==> is_stamp_of(entries, #[trigger] listing[i])
            &&& forall|name: Seq<char>, k: int| #[trigger]
                is_last_named(entries, name, k) ==> exists|i: int|
                    0 <= i < listing.len() && (#[trigger] listing[i]).name == name
        }),
    decreases entries.len(),
{
    let listing = store::listed(entries);
    if entries.len() > 0 {
        let init = entries.drop_last();
        let e = entries.last();
        let n = entries.len() - 1;
        let before = store::listed(init);
        law_units_are_listed_with_their_times(init);
        lemma_time(e);
        let s = StampV { name: e.name@, mtime_ns: store::entry_mtime(e) };
        if store::is_unit(e) {
            assert(is_last_named(entries, e.name@, n));
        }
        assert forall|name: Seq<char>, k: int| #[trigger]
            is_last_named(init, name, k) && (!is_unit_entry(e) || name != e.name@) implies
            is_last_named(entries, name, k) by {
            assert(entries[k] == init[k]);
            assert forall|i: int|
                k < i < entries.len() && (#[trigger] entries[i]).name@ == name implies
                !is_unit_entry(entries[i]) by {
                if i < n {
                    assert(entries[i] == init[i]);
                }
            }
        }
        assert forall|name: Seq<char>, k: int| #[trigger]
            is_last_named(entries, name, k) && k < n implies is_last_named(init, name, k) by {
            assert forall|i: int|
                k < i < init.len() && (#[trigger] init[i]).name@ == name implies !is_unit_entry(
                init[i],
            ) by {
                assert(entries[i] == init[i]);
            }
        }
        lemma_put(before, s);
        assert forall|i: int| 0 <= i < listing.len() implies is_stamp_of(
            entries,
            #[trigger] listing[i],
        ) by {
            if store::is_unit(e) && listing[i].name == e.name@ {
                assert(listing[i] == s);
                assert(is_last_named(entries, listing[i].name, n));
            } else {
                let j = choose|j: int| 0 <= j < before.len() && before[j] == listing[i];
                assert(is_stamp_of(init, before[j]));
                let b = before[j];
                let k = choose|k: int| #[trigger]
                    is_last_named(init, b.name, k) && is_time_of(b.mtime_ns as int, init[k]);
                assert(is_last_named(entries, b.name, k));
                assert(entries[k] == init[k]);
            }
        }
        assert forall|name: Seq<char>, k: int| #[trigger]
            is_last_named(entries, name, k) implies exists|i: int|
            0 <= i < listing.len() && (#[trigger] listing[i]).name == name by {
            if k < n {
                assert(is_last_named(init, name, k));
                let j = choose|j: int| 0 <= j < before.len() && (#[trigger] before[j]).name == name;
                assert(before[j].name == name);
                if store::is_unit(e) {
                    let i = choose|i: int|
                        0 <= i < listing.len() && (#[trigger] listing[i]).name == before[j].name;
                    assert(listing[i].name == name);
                } else {
                    assert(listing[j].name == name);
                }
            } else {
                assert(store::is_unit(e));
                let i = choose|i: int| 0 <= i < listing.len() && #[trigger] listing[i] == s;
                assert(listing[i].name == name);
            }
        }
    }
}

/// Putting a stamp into a listing leaves the others.
proof fn lemma_put(before: Seq<StampV>, s: StampV)
    requires
        forall|i: int, j: int|
            0 <= i < j < before.len() ==> (#[trigger] before[i]).name != (
            #[trigger] before[j]).name,
    ensures
        ({
            let r = store::put_stamp(before, s);
            &&& forall|i: int, j: int|
                0 <= i < j < r.len() ==> (#[trigger] r[i]).name != (#[trigger] r[j]).name
            &&& forall|i: int|
                0 <= i < r.len() ==> #[trigger] r[i] == s || (r[i].name != s.name
                    && before.contains(r[i]))
            &&& exists|i: int| 0 <= i < r.len() && #[trigger] r[i] == s
            &&& forall|j: int|
                0 <= j < before.len() ==> exists|i: int|
                    0 <= i < r.len() && (#[trigger] r[i]).name == (#[trigger] before[j]).name
        }),
{
    let r = store::put_stamp(before, s);
    if exists|i: int| db::has_name_at(before, s.name, i) {
        let c = choose|i: int| db::has_name_at(before, s.name, i);
        assert(db::has_name_at(before, s.name, c));
        assert(r[c] == s);
        assert forall|i: int, j: int| 0 <= i < j < r.len() implies (#[trigger] r[i]).name != (
        #[trigger] r[j]).name by {
            assert(r[i].name == before[i].name);
            assert(r[j].name == before[j].name);
        }
        assert forall|j: int| 0 <= j < before.len() implies exists|i: int|
            0 <= i < r.len() && (#[trigger] r[i]).name == (#[trigger] before[j]).name by {
            assert(r[j].name == before[j].name);
        }
        assert forall|i: int| 0 <= i < r.len() implies #[trigger] r[i] == s || (r[i].name != s.name
            && before.contains(r[i])) by {
            if i != c {
                assert(r[i] == before[i]);
                if i < c {
                    assert(before[i].name != before[c].name);
                } else {
                    assert(before[c].name != before[i].name);
                }
            }
        }
    } else {
        assert(r[before.len() as int] == s);
        assert forall|i: int, j: int| 0 <= i < j < r.len() implies (#[trigger] r[i]).name != (
        #[trigger] r[j]).name by {
            assert(r[i] == before[i]);
            if j < before.len() {
                assert(r[j] == before[j]);
            } else {
                assert(!db::has_name_at(before, s.name, i));
            }
        }
        assert forall|j: int| 0 <= j < before.len() implies exists|i: int|
            0 <= i < r.len() && (#[trigger] r[i]).name == (#[trigger] before[j]).name by {
            assert(r[j].name == before[j].name);
        }
        assert forall|i: int| 0 <= i < r.len() implies #[trigger] r[i] == s || (r[i].name != s.name
            && before.contains(r[i])) by {
            if i < before.len() {
                assert(r[i] == before[i]);
                assert(!db::has_name_at(before, s.name, i));
            }
        }
    }
}

/// Two entries of a unit with different times are listed with different times.
pub proof fn law_times_tell_units_apart(e: DirEntry, f: DirEntry)
    requires
        e.modified_ns matches Some(n) && n <= i64::MAX as u128,
        f.modified_ns matches Some(n) && n <= i64::MAX as u128,
    ensures
        store::entry_mtime(e) as int == e.modified_ns.unwrap() as int,
        store::entry_mtime(e) == store::entry_mtime(f) <==> e.modified_ns == f.modified_ns,
{
    lemma_time(e);
    lemma_time(f);
}

// ---- plans --------------------------------------------------------------

/// Whether the main file of a unit of the graph is missing.
pub open spec fn is_main_gone(g: GraphV, missing: Seq<Seq<char>>, u: UnitV) -> bool {
    exists|f: FileV| #[trigger]
        g.files.contains(f) && u.main_file_id == Some(f.id) && missing.contains(f.path)
}

pub proof fn lemma_main_gone(g: GraphV, missing: Seq<Seq<char>>, u: UnitV)
    requires
        g.keyed(),
    ensures
        plan::source_gone(g, missing, u) <==> is_main_gone(g, missing, u),
{
    if let Some(id) = u.main_file_id {
        meaning::law_ids_lead_to_rows(g.files, id);
        if plan::source_gone(g, missing, u) {
            assert(g.files.contains(db::by_id(g.files, id).unwrap()));
        }
        if is_main_gone(g, missing, u) {
            let f = choose|f: FileV| #[trigger]
                g.files.contains(f) && u.main_file_id == Some(f.id) && missing.contains(f.path);
            assert(f.rid() == id);
        }
    }
}

/// Whether a unit of the store has to be read: every unit of its name that the
/// graph has, has another time, and its main file is not missing.
pub open spec fn has_to_be_read(g: GraphV, missing: Seq<Seq<char>>, s: StampV) -> bool {
    forall|u: UnitV| #[trigger]
        g.units.contains(u) && u.name == s.name ==> u.mtime_ns != s.mtime_ns && !is_main_gone(
            g,
            missing,
            u,
        )
}

/// Whether a unit of the graph has to go: the listing does not have its name, or
/// its main file is missing.
pub open spec fn has_to_go(
    g: GraphV,
    listing: Seq<StampV>,
    missing: Seq<Seq<char>>,
    u: UnitV,
) -> bool {
    (forall|i: int| 0 <= i < listing.len() ==> (#[trigger] listing[i]).name != u.name)
        || is_main_gone(g, missing, u)
}

/// A plan reads the units that are new or whose time changed, removes those that
/// are not listed or whose main file is missing, and does nothing else.
pub proof fn law_plans_follow_the_store(
    g: GraphV,
    listing: Seq<StampV>,
    missing: Seq<Seq<char>>,
)
    requires
        g.keyed(),
    ensures
        forall|s: StampV| #[trigger]
            plan::units_to_read(g, listing, missing).contains(s) <==> listing.contains(s)
                && has_to_be_read(g, missing, s),
        forall|id: i64| #[trigger]
            plan::units_to_drop(g, listing, missing).contains(id) <==> exists|u: UnitV| #[trigger]
                g.units.contains(u) && u.id == id && has_to_go(g, listing, missing, u),
        forall|path: Seq<char>| #[trigger]
            plan::main_paths(g).contains(path) <==> exists|u: UnitV, f: FileV| #[trigger]
                g.units.contains(u) && #[trigger] g.files.contains(f) && u.main_file_id == Some(f.id)
                    && f.path == path,
{
    assert forall|s: StampV| #[trigger]
        plan::units_to_read(g, listing, missing).contains(s) <==> listing.contains(s)
            && has_to_be_read(g, missing, s) by {
        laws::lemma_reads(g, listing, missing, s);
        lemma_to_read(g, missing, s);
    }
    assert forall|id: i64| #[trigger]
        plan::units_to_drop(g, listing, missing).contains(id) <==> exists|u: UnitV| #[trigger]
            g.units.contains(u) && u.id == id && has_to_go(g, listing, missing, u) by {
        let f = plan::pick_drop(g, listing, missing);
        rows::lemma_gather_members(g.units, f, id);
        if plan::units_to_drop(g, listing, missing).contains(id) {
            let i = choose|i: int| 0 <= i < g.units.len() && f(#[trigger] g.units[i]).contains(id);
            let u = g.units[i];
            lemma_to_drop(g, listing, missing, u);
            assert(g.units.contains(u));
        }
        if exists|u: UnitV| #[trigger]
            g.units.contains(u) && u.id == id && has_to_go(g, listing, missing, u) {
            let u = choose|u: UnitV| #[trigger]
                g.units.contains(u) && u.id == id && has_to_go(g, listing, missing, u);
            lemma_to_drop(g, listing, missing, u);
            let i = choose|i: int| 0 <= i < g.units.len() && g.units[i] == u;
            assert(f(g.units[i])[0] == id);
            assert(f(g.units[i]).contains(id));
        }
    }
    assert forall|path: Seq<char>| #[trigger]
        plan::main_paths(g).contains(path) <==> exists|u: UnitV, f: FileV| #[trigger]
            g.units.contains(u) && #[trigger] g.files.contains(f) && u.main_file_id == Some(f.id)
                && f.path == path by {
        let h = plan::pick_main(g);
        rows::lemma_gather_members(g.units, h, path);
        if plan::main_paths(g).contains(path) {
            let i = choose|i: int| 0 <= i < g.units.len() && h(#[trigger] g.units[i]).contains(path);
            let u = g.units[i];
            let id = u.main_file_id.unwrap();
            meaning::law_ids_lead_to_rows(g.files, id);
            let f = db::by_id(g.files, id).unwrap();
            assert(g.units.contains(u) && g.files.contains(f));
        }
        if exists|u: UnitV, f: FileV| #[trigger]
            g.units.contains(u) && #[trigger] g.files.contains(f) && u.main_file_id == Some(f.id)
                && f.path == path {
            let (u, f) = choose|u: UnitV, f: FileV| #[trigger]
                g.units.contains(u) && #[trigger] g.files.contains(f) && u.main_file_id == Some(
                    f.id,
                ) && f.path == path;
            meaning::law_ids_lead_to_rows(g.files, f.id);
            assert(f.rid() == f.id);
            let i = choose|i: int| 0 <= i < g.units.len() && g.units[i] == u;
            assert(h(g.units[i])[0] == path);
            assert(h(g.units[i]).contains(path));
        }
    }
}

proof fn lemma_to_read(g: GraphV, missing: Seq<Seq<char>>, s: StampV)
    requires
        g.keyed(),
    ensures
        plan::to_read(g, missing, s) <==> has_to_be_read(g, missing, s),
{
    match db::by_name(g.units, s.name) {
        Some(u) => {
            growth::lemma_by_name_found(g.units, s.name);
            lemma_main_gone(g, missing, u);
            assert(g.units.contains(u) && u.name == s.name);
            assert forall|v: UnitV| #[trigger] g.units.contains(v) && v.name == s.name implies v
                == u by {
                growth::lemma_by_name_member(g.units, v);
            }
        },
        None => {
            assert forall|v: UnitV| #[trigger] g.units.contains(v) implies v.name != s.name by {
                growth::lemma_by_name_member(g.units, v);
            }
        },
    }
}

proof fn lemma_to_drop(g: GraphV, listing: Seq<StampV>, missing: Seq<Seq<char>>, u: UnitV)
    requires
        g.keyed(),
    ensures
        plan::to_drop(g, listing, missing, u) <==> has_to_go(g, listing, missing, u),
{
    lemma_main_gone(g, missing, u);
    if forall|i: int| 0 <= i < listing.len() ==> (#[trigger] listing[i]).name != u.name {
        assert forall|i: int| !db::has_name_at(listing, u.name, i) by {}
    } else {
        let i = choose|i: int| 0 <= i < listing.len() && (#[trigger] listing[i]).name == u.name;
        assert(db::has_name_at(listing, u.name, i));
    }
}

/// A unit of the graph that was compiled again, so that its file has another time,
/// is read, with that time.
pub proof fn law_recompiled_units_are_read(
    g: GraphV,
    entries: Seq<DirEntry>,
    missing: Seq<Seq<char>>,
    u: UnitV,
    k: int,
)
    requires
        g.keyed(),
        g.units.contains(u),
        is_last_named(entries, u.name, k),
        entries[k].modified_ns matches Some(n) && n <= i64::MAX as u128 && n != u.mtime_ns,
        !is_main_gone(g, missing, u),
    ensures
        exists|s: StampV| #[trigger]
            plan::units_to_read(g, store::listed(entries), missing).contains(s) && s.name == u.name
                && s.mtime_ns as int == entries[k].modified_ns.unwrap() as int,
{
    let listing = store::listed(entries);
    law_units_are_listed_with_their_times(entries);
    let i = choose|i: int| 0 <= i < listing.len() && (#[trigger] listing[i]).name == u.name;
    let s = listing[i];
    assert(is_stamp_of(entries, s));
    let m = choose|m: int| #[trigger]
        is_last_named(entries, s.name, m) && is_time_of(s.mtime_ns as int, entries[m]);
    if m < k {
        assert(entries[k].name@ == s.name);
        assert(is_unit_entry(entries[k]));
    } else if k < m {
        assert(entries[m].name@ == u.name);
        assert(is_unit_entry(entries[m]));
    }
    assert(listing.contains(s));
    law_plans_follow_the_store(g, listing, missing);
    assert(has_to_be_read(g, missing, s)) by {
        assert forall|v: UnitV| #[trigger] g.units.contains(v) && v.name == s.name implies v.mtime_ns
            != s.mtime_ns && !is_main_gone(g, missing, v) by {
            growth::lemma_by_name_member(g.units, v);
            growth::lemma_by_name_member(g.units, u);
        }
    }
    assert(plan::units_to_read(g, listing, missing).contains(s));
}

/// A unit of the graph that was not compiled again is not read.
pub proof fn law_unchanged_units_are_not_read(
    g: GraphV,
    entries: Seq<DirEntry>,
    missing: Seq<Seq<char>>,
    u: UnitV,
    k: int,
)
    requires
        g.keyed(),
        g.units.contains(u),
        is_last_named(entries, u.name, k),
        entries[k].modified_ns matches Some(n) && n == u.mtime_ns,
    ensures
        forall|s: StampV| #[trigger]
            plan::units_to_read(g, store::listed(entries), missing).contains(s) ==> s.name
                != u.name,
{
    let listing = store::listed(entries);
    law_units_are_listed_with_their_times(entries);
    law_plans_follow_the_store(g, listing, missing);
    assert forall|s: StampV| #[trigger]
        plan::units_to_read(g, listing, missing).contains(s) implies s.name != u.name by {
        if s.name == u.name {
            let i = choose|i: int| 0 <= i < listing.len() && listing[i] == s;
            assert(is_stamp_of(entries, listing[i]));
            let m = choose|m: int| #[trigger]
                is_last_named(entries, s.name, m) && is_time_of(s.mtime_ns as int, entries[m]);
            if m < k {
                assert(entries[k].name@ == s.name);
                assert(is_unit_entry(entries[k]));
            } else if k < m {
                assert(entries[m].name@ == u.name);
                assert(is_unit_entry(entries[m]));
            }
            assert(has_to_be_read(g, missing, s));
        }
    }
}

// ---- what is read -------------------------------------------------------

/// Whether the main file that a unit names is missing.
pub open spec fn names_missing(u: UnitDataV, missing: Seq<Seq<char>>) -> bool {
    u.main_file matches Some(path) && path.len() > 0 && missing.contains(path)
}

/// The records to read for units are those that a unit whose main file is there is
/// made of and whose names the graph does not have, each name once.
pub proof fn law_new_records_are_read(
    g: GraphV,
    units: Seq<UnitDataV>,
    missing: Seq<Seq<char>>,
)
    ensures
        ({
            let r = merge::new_records(g, merge::all_deps(units, missing));
            &&& forall|i: int|
                0 <= i < r.len() ==> is_wanted(g, units, missing, #[trigger] r[i])
            &&& forall|d: RecordDepV| #[trigger]
                is_wanted(g, units, missing, d) ==> exists|i: int|
                    0 <= i < r.len() && (#[trigger] r[i]).name == d.name
            &&& forall|i: int, j: int|
                0 <= i < j < r.len() ==> (#[trigger] r[i]).name != (#[trigger] r[j]).name
        }),
{
    let deps = merge::all_deps(units, missing);
    let r = merge::new_records(g, deps);
    laws::law_records_to_read_are_the_new_ones(g, deps);
    lemma_new_among(g, deps);
    assert forall|i: int| 0 <= i < r.len() implies is_wanted(g, units, missing, #[trigger] r[i]) by {
        let d = r[i];
        assert(deps.contains(d));
        lemma_deps(units, missing, d);
        assert(merge::has_dep(r, d.name));
        assert forall|x: RecordV| #[trigger] g.records.contains(x) implies x.name != d.name by {
            if x.name == d.name {
                let k = choose|k: int| 0 <= k < g.records.len() && g.records[k] == x;
                assert(db::has_name_at(g.records, d.name, k));
            }
        }
    }
    assert forall|d: RecordDepV| #[trigger] is_wanted(g, units, missing, d) implies exists|i: int|
        0 <= i < r.len() && (#[trigger] r[i]).name == d.name by {
        lemma_deps(units, missing, d);
        let k = choose|k: int| 0 <= k < deps.len() && deps[k] == d;
        assert(deps[k].name == d.name);
        assert(merge::has_dep(deps, d.name));
        if db::by_name(g.records, d.name) is Some {
            growth::lemma_by_name_found(g.records, d.name);
        }
        assert(merge::has_dep(r, d.name));
    }
}

/// Whether a unit whose main file is there is made of the record, and the graph
/// does not have the record.
pub open spec fn is_wanted(
    g: GraphV,
    units: Seq<UnitDataV>,
    missing: Seq<Seq<char>>,
    d: RecordDepV,
) -> bool {
    &&& exists|u: UnitDataV| #[trigger]
        units.contains(u) && !names_missing(u, missing) && u.deps.contains(d)
    &&& forall|x: RecordV| #[trigger] g.records.contains(x) ==> x.name != d.name
}

proof fn lemma_deps(units: Seq<UnitDataV>, missing: Seq<Seq<char>>, d: RecordDepV)
    ensures
        merge::all_deps(units, missing).contains(d) <==> exists|u: UnitDataV| #[trigger]
            units.contains(u) && !names_missing(u, missing) && u.deps.contains(d),
{
    let h = merge::deps_to_add(missing);
    rows::lemma_gather_members(units, h, d);
    if merge::all_deps(units, missing).contains(d) {
        let i = choose|i: int| 0 <= i < units.len() && h(#[trigger] units[i]).contains(d);
        assert(units.contains(units[i]));
    }
    if exists|u: UnitDataV| #[trigger]
        units.contains(u) && !names_missing(u, missing) && u.deps.contains(d) {
        let u = choose|u: UnitDataV| #[trigger]
            units.contains(u) && !names_missing(u, missing) && u.deps.contains(d);
        let i = choose|i: int| 0 <= i < units.len() && units[i] == u;
        assert(h(units[i]).contains(d));
    }
}

proof fn lemma_new_among(g: GraphV, deps: Seq<RecordDepV>)
    ensures
        forall|i: int|
            0 <= i < merge::new_records(g, deps).len() ==> deps.contains(
                #[trigger] merge::new_records(g, deps)[i],
            ),
    decreases deps.len(),
{
    if deps.len() > 0 {
        let init = deps.drop_last();
        lemma_new_among(g, init);
        let r = merge::new_records(g, deps);
        let before = merge::new_records(g, init);
        assert forall|i: int| 0 <= i < r.len() implies deps.contains(#[trigger] r[i]) by {
            if i < before.len() {
                assert(r[i] == before[i]);
                assert(init.contains(before[i]));
                let k = choose|k: int| 0 <= k < init.len() && init[k] == before[i];
                assert(deps[k] == r[i]);
            } else {
                assert(deps[deps.len() - 1] == r[i]);
            }
        }
    }
}

/// Of the dependencies of a unit, those on records count, in their order, and no
/// others.
pub proof fn law_records_are_taken(a: Seq<UnitDep>, d: UnitDep)
    ensures
        ffi::records_among(Seq::empty()) == Seq::<RecordDepV>::empty(),
        d.kind == 2 ==> ffi::records_among(a.push(d)) == ffi::records_among(a).push(
            RecordDepV { name: d.name@, file_path: d.file_path@, is_system: d.is_system },
        ),
        d.kind != 2 ==> ffi::records_among(a.push(d)) == ffi::records_among(a),
{
    assert(a.push(d).drop_last() =~= a);
}

// ---- the command line ---------------------------------------------------

/// The word that asks a question.
pub open spec fn word_of(question: Question) -> Seq<char> {
    match question {
        Question::Find => "find"@,
        Question::Refs => "refs"@,
        Question::Callers => "callers"@,
        Question::Callees => "callees"@,
        Question::Hierarchy => "hierarchy"@,
        Question::Members => "members"@,
        Question::Outline => "outline"@,
    }
}

/// The limit that a word asks for: the number that it spells, where it spells one
/// that is not too great, and fifty otherwise.
pub open spec fn is_limit(word: Seq<char>, limit: int) -> bool {
    let d = if word.len() > 1 && word[0] == '+' {
        word.drop_first()
    } else {
        word
    };
    if d.len() > 0 && plain::all_digits(d) && plain::read_digits(d) <= usize::MAX {
        limit == plain::read_digits(d)
    } else {
        limit == 50
    }
}

proof fn lemma_words_differ(question: Question)
    ensures
        word_of(question) != "update"@,
        word_of(question) != "stats"@,
        cli::question_of(word_of(question)) == Some(question),
{
    reveal_strlit("update");
    reveal_strlit("stats");
    reveal_strlit("find");
    reveal_strlit("refs");
    reveal_strlit("callers");
    reveal_strlit("callees");
    reveal_strlit("hierarchy");
    reveal_strlit("members");
    reveal_strlit("outline");
    assert("update"@.len() == 6 && "stats"@.len() == 5 && "find"@.len() == 4 && "refs"@.len() == 4);
    assert("callers"@.len() == 7 && "callees"@.len() == 7 && "members"@.len() == 7
        && "outline"@.len() == 7 && "hierarchy"@.len() == 9);
    assert("find"@[0] == 'f' && "refs"@[0] == 'r');
    assert("callers"@[0] == 'c' && "callees"@[0] == 'c' && "members"@[0] == 'm' && "outline"@[0]
        == 'o');
    assert("callers"@[5] == 'r' && "callees"@[5] == 'e');
}

proof fn lemma_limit(word: Seq<char>)
    ensures
        is_limit(word, cli::limit_of(word) as int),
{
    plain::law_words_are_read_as_numbers(word);
    if word.len() > 0 && word[0] == '+' && plain::all_digits(word) {
        assert('0' <= word[0] <= '9');
    }
    if plain::all_digits(word) {
        plain::lemma_not_below_zero(word);
    }
    if word.len() > 0 && plain::all_digits(word.drop_first()) {
        plain::lemma_not_below_zero(word.drop_first());
    }
}

/// The words of a command line ask for what they spell: a question, in the graph
/// of a file, with a limit or fifty lines.
pub proof fn law_questions_are_asked_for(args: Seq<Seq<char>>, question: Question)
    requires
        args.len() > 2,
        args[0] == word_of(question),
    ensures
        cli::asked(args) matches Some(CommandV::Ask { question: asked, db, query, limit }) && {
            &&& asked == question
            &&& db == args[1]
            &&& query == args[2]
            &&& args.len() == 3 ==> limit == 50
            &&& args.len() > 3 ==> is_limit(args[3], limit as int)
        },
{
    lemma_words_differ(question);
    if args.len() > 3 {
        lemma_limit(args[3]);
    }
}

/// `update` names a store and a file, and can ask for the graph to be made anew;
/// `stats` names a file.
pub proof fn law_other_commands_are_asked_for(args: Seq<Seq<char>>)
    ensures
        args.len() > 2 && args[0] == "update"@ ==> (cli::asked(args) matches Some(
            CommandV::Update { store, db, full },
        ) && store == args[1] && db == args[2] && (full <==> exists|i: int|
            0 <= i < args.len() && #[trigger] args[i] == "--full"@)),
        args.len() > 1 && args[0] == "stats"@ ==> (cli::asked(args) matches Some(
            CommandV::Stats { db },
        ) && db == args[1]),
        cli::asked(args) is Some ==> args.len() > 1 && (args[0] == "update"@ || args[0] == "stats"@
            || exists|question: Question| args[0] == #[trigger] word_of(question)),
        cli::asked(args) is Some && args[0] != "stats"@ ==> args.len() > 2,
{
    reveal_strlit("update");
    reveal_strlit("stats");
    assert("update"@.len() == 6 && "stats"@.len() == 5);
    if cli::asked(args) is Some && args[0] != "update"@ && args[0] != "stats"@ {
        let question = cli::question_of(args[0]).unwrap();
        assert(args[0] == word_of(question));
    }
}

/// Tables are read exactly where they say, in digits, that their version is one.
pub proof fn law_versions_are_told(v: Seq<char>)
    ensures
        db::version_is_current(Some(v)) <==> ({
            let d = if v.len() > 1 && v[0] == '+' {
                v.drop_first()
            } else {
                v
            };
            d.len() > 0 && plain::all_digits(d) && plain::read_digits(d) == 1
        }),
        !db::version_is_current(None),
{
    plain::law_words_are_read_as_numbers(v);
    plain::lemma_numbers(v);
    if v.len() > 0 {
        plain::lemma_numbers(v.drop_first());
        if plain::all_digits(v) {
            assert('0' <= v[0] <= '9');
            plain::lemma_not_below_zero(v);
        }
        if plain::all_digits(v.drop_first()) {
            plain::lemma_not_below_zero(v.drop_first());
        }
    }
}

} // verus!
