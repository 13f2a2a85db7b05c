//! Merging one state of a store after the other, and merging the last one anew.
use vstd::prelude::*;

use crate::db::{self, GraphV, LinkRow, RecordV, UnitV};
use crate::growth;
use crate::laws;
use crate::merge;
use crate::mirror::{self, Records, Units};
use crate::plan;
use crate::rows;
use crate::store::{SnapshotV, StampV};

verus! {

// ---- two images of one store --------------------------------------------

/// Whether the graph is an image of the store: what it says is true, and nothing
/// in it is left over.
pub open spec fn is_image(g: GraphV, units: Units, records: Records) -> bool {
    &&& growth::sound(g)
    &&& mirror::units_true(g, units)
    &&& mirror::records_true(g, records)
    &&& mirror::all_linked(g)
    &&& growth::all_used(g)
}

/// The path of the main file of a unit.
pub open spec fn main_path(g: GraphV, u: UnitV) -> Option<Seq<char>> {
    match u.main_file_id {
        Some(id) => match db::by_id(g.files, id) {
            Some(f) => Some(f.path),
            None => None,
        },
        None => None,
    }
}

/// Whether two graphs have the same units, with the same times, modules, main
/// files and records.
pub open spec fn same_units(g: GraphV, h: GraphV) -> bool {
    forall|name: Seq<char>|
        match (#[trigger] db::by_name(g.units, name), db::by_name(h.units, name)) {
            (Some(u), Some(v)) => {
                &&& u.mtime_ns == v.mtime_ns
                &&& u.module_name == v.module_name
                &&& main_path(g, u) == main_path(h, v)
                &&& forall|record: Seq<char>| #[trigger]
                    mirror::made_of(g, u.id, record) == mirror::made_of(h, v.id, record)
            },
            (None, None) => true,
            _ => false,
        }
}

/// Whether two graphs have the same records, and the same occurrences and
/// relations of each.
pub open spec fn same_records(g: GraphV, h: GraphV) -> bool {
    forall|name: Seq<char>|
        match (#[trigger] db::by_name(g.records, name), db::by_name(h.records, name)) {
            (Some(r), Some(q)) => growth::facts(g, r.id) == growth::facts(h, q.id),
            (None, None) => true,
            _ => false,
        }
}

/// Whether two graphs have the same symbols.
pub open spec fn same_symbols(g: GraphV, h: GraphV) -> bool {
    forall|usr: Seq<char>|
        #[trigger] db::by_name(g.symbols, usr) is Some <==> db::by_name(h.symbols, usr) is Some
}

/// What the store says of a unit of an image of it.
proof fn lemma_unit_said(g: GraphV, units: Units, records: Records, name: Seq<char>)
    requires
        is_image(g, units, records),
        db::by_name(g.units, name) is Some,
    ensures
        units.contains_key(name),
        mirror::unit_true(g, db::by_name(g.units, name).unwrap(), units[name]),
{
    growth::lemma_by_name_found(g.units, name);
    let u = db::by_name(g.units, name).unwrap();
    let i = choose|i: int| 0 <= i < g.units.len() && g.units[i] == u;
    assert(mirror::unit_true(g, g.units[i], units[g.units[i].name]));
}

/// What the store says of a record of an image of it.
proof fn lemma_record_said(g: GraphV, units: Units, records: Records, name: Seq<char>)
    requires
        is_image(g, units, records),
        db::by_name(g.records, name) is Some,
    ensures
        mirror::record_true(g, db::by_name(g.records, name).unwrap(), records),
{
    growth::lemma_by_name_found(g.records, name);
    let r = db::by_name(g.records, name).unwrap();
    let i = choose|i: int| 0 <= i < g.records.len() && g.records[i] == r;
    assert(mirror::record_true(g, g.records[i], records));
}

/// A record of one image is one of the other.
proof fn lemma_record_there(
    g: GraphV,
    h: GraphV,
    units: Units,
    records: Records,
    name: Seq<char>,
)
    requires
        is_image(g, units, records),
        is_image(h, units, records),
        forall|n: Seq<char>|
            #[trigger] db::by_name(g.units, n) is Some ==> db::by_name(h.units, n) is Some,
        db::by_name(g.records, name) is Some,
    ensures
        db::by_name(h.records, name) is Some,
{
    growth::lemma_by_name_found(g.records, name);
    let r = db::by_name(g.records, name).unwrap();
    let i = choose|i: int| 0 <= i < g.records.len() && g.records[i] == r;
    assert(merge::is_linked(g, g.records[i].id));
    let k = choose|k: int| 0 <= k < g.links.len() && (#[trigger] g.links[k]).record_id == r.id;
    let l = g.links[k];
    assert(db::by_id(g.units, g.links[k].unit_id) is Some);
    growth::lemma_by_id_found(g.units, l.unit_id);
    let u = db::by_id(g.units, l.unit_id).unwrap();
    growth::lemma_by_name_member(g.units, u);
    lemma_unit_said(g, units, records, u.name);
    assert(l == (LinkRow { unit_id: u.id, record_id: r.id }));
    assert(g.links.contains(l));
    assert(mirror::made_of(g, u.id, name));
    assert(db::by_name(g.units, u.name) is Some);
    lemma_unit_said(h, units, records, u.name);
    let v = db::by_name(h.units, u.name).unwrap();
    assert(mirror::made_of(h, v.id, name));
}

/// A symbol that a record says is one of the graph.
proof fn lemma_fact_symbols(g: GraphV, record_id: i64, x: growth::Fact)
    requires
        growth::sound(g),
        growth::facts(g, record_id).contains(x),
    ensures
        db::by_name(g.symbols, x.usr) is Some,
        forall|j: int|
            0 <= j < x.relations.len() ==> db::by_name(
                g.symbols,
                (#[trigger] x.relations[j]).1,
            ) is Some,
{
    let f = growth::pick_fact(g, record_id);
    rows::lemma_gather_members(g.occurrences, f, x);
    let i = choose|i: int| 0 <= i < g.occurrences.len() && f(#[trigger] g.occurrences[i]).contains(x);
    let o = g.occurrences[i];
    assert(x == growth::fact(g, o));
    assert(db::by_id(g.symbols, o.symbol_id) is Some);
    lemma_usr_there(g, o.symbol_id);
    let p = growth::pick_relation(g, o.id);
    assert forall|j: int| 0 <= j < x.relations.len() implies db::by_name(
        g.symbols,
        (#[trigger] x.relations[j]).1,
    ) is Some by {
        let y = x.relations[j];
        assert(growth::relation_facts(g, o.id).contains(y));
        rows::lemma_gather_members(g.relations, p, y);
        let m = choose|m: int| 0 <= m < g.relations.len() && p(#[trigger] g.relations[m]).contains(y);
        assert(db::by_id(g.symbols, g.relations[m].symbol_id) is Some);
        lemma_usr_there(g, g.relations[m].symbol_id);
    }
}

proof fn lemma_usr_there(g: GraphV, id: i64)
    requires
        growth::sound(g),
        db::by_id(g.symbols, id) is Some,
    ensures
        db::by_name(g.symbols, growth::usr_of(g, id)) is Some,
{
    growth::lemma_by_id_found(g.symbols, id);
    growth::lemma_by_name_member(g.symbols, db::by_id(g.symbols, id).unwrap());
}

/// An occurrence is among what its record says.
proof fn lemma_fact_found(g: GraphV, i: int) -> (r: RecordV)
    requires
        growth::sound(g),
        0 <= i < g.occurrences.len(),
    ensures
        g.records.contains(r),
        db::by_name(g.records, r.name) == Some(r),
        growth::facts(g, r.id).contains(growth::fact(g, g.occurrences[i])),
{
    let o = g.occurrences[i];
    assert(db::by_id(g.records, o.record_id) is Some);
    growth::lemma_by_id_found(g.records, o.record_id);
    let r = db::by_id(g.records, o.record_id).unwrap();
    growth::lemma_by_name_member(g.records, r);
    let f = growth::pick_fact(g, r.id);
    let x = growth::fact(g, o);
    assert(f(o) == seq![x]);
    assert(f(o)[0] == x);
    assert(f(g.occurrences[i]).contains(x));
    rows::lemma_gather_members(g.occurrences, f, x);
    r
}

/// A symbol of one image is one of the other.
proof fn lemma_symbol_there(
    g: GraphV,
    h: GraphV,
    units: Units,
    records: Records,
    usr: Seq<char>,
)
    requires
        is_image(g, units, records),
        is_image(h, units, records),
        forall|n: Seq<char>|
            #[trigger] db::by_name(g.units, n) is Some ==> db::by_name(h.units, n) is Some,
        db::by_name(g.symbols, usr) is Some,
    ensures
        db::by_name(h.symbols, usr) is Some,
{
    growth::lemma_by_name_found(g.symbols, usr);
    let s = db::by_name(g.symbols, usr).unwrap();
    growth::lemma_by_id_member(g.symbols, s);
    let n = choose|n: int| 0 <= n < g.symbols.len() && g.symbols[n] == s;
    reveal(growth::all_used);
    assert(merge::is_used(g, g.symbols[n].id));
    if exists|i: int|
        0 <= i < g.occurrences.len() && (#[trigger] g.occurrences[i]).symbol_id == s.id {
        let i = choose|i: int|
            0 <= i < g.occurrences.len() && (#[trigger] g.occurrences[i]).symbol_id == s.id;
        let r = lemma_fact_found(g, i);
        let x = growth::fact(g, g.occurrences[i]);
        lemma_fact_there(g, h, units, records, r.name, x);
        lemma_fact_symbols(h, db::by_name(h.records, r.name).unwrap().id, x);
    } else {
        let k = choose|k: int|
            0 <= k < g.relations.len() && (#[trigger] g.relations[k]).symbol_id == s.id;
        let q = g.relations[k];
        assert(db::by_id(g.occurrences, g.relations[k].occ_id) is Some);
        growth::lemma_by_id_found(g.occurrences, q.occ_id);
        let o = db::by_id(g.occurrences, q.occ_id).unwrap();
        let i = choose|i: int| 0 <= i < g.occurrences.len() && g.occurrences[i] == o;
        let r = lemma_fact_found(g, i);
        let x = growth::fact(g, g.occurrences[i]);
        let p = growth::pick_relation(g, o.id);
        let y = (q.roles, usr);
        assert(p(q) == seq![y]);
        assert(p(q)[0] == y);
        assert(p(g.relations[k]).contains(y));
        rows::lemma_gather_members(g.relations, p, y);
        assert(x.relations.contains(y));
        let j = choose|j: int| 0 <= j < x.relations.len() && x.relations[j] == y;
        lemma_fact_there(g, h, units, records, r.name, x);
        lemma_fact_symbols(h, db::by_name(h.records, r.name).unwrap().id, x);
        assert(x.relations[j].1 == usr);
    }
}

/// What a record of one image says, that of the other says.
proof fn lemma_fact_there(
    g: GraphV,
    h: GraphV,
    units: Units,
    records: Records,
    name: Seq<char>,
    x: growth::Fact,
)
    requires
        is_image(g, units, records),
        is_image(h, units, records),
        forall|n: Seq<char>|
            #[trigger] db::by_name(g.units, n) is Some ==> db::by_name(h.units, n) is Some,
        db::by_name(g.records, name) is Some,
        growth::facts(g, db::by_name(g.records, name).unwrap().id).contains(x),
    ensures
        db::by_name(h.records, name) is Some,
        growth::facts(h, db::by_name(h.records, name).unwrap().id).contains(x),
{
    growth::lemma_by_name_found(g.records, name);
    lemma_record_there(g, h, units, records, name);
    growth::lemma_by_name_found(h.records, name);
    lemma_record_said(g, units, records, name);
    lemma_record_said(h, units, records, name);
}

/// Two images of one store that have the same units say the same: of each unit
/// the time, module, main file and records, of each record the occurrences and
/// their relations, and which symbols there are.
pub proof fn law_images_of_a_store_agree(g: GraphV, h: GraphV, units: Units, records: Records)
    requires
        is_image(g, units, records),
        is_image(h, units, records),
        forall|name: Seq<char>|
            #[trigger] db::by_name(g.units, name) is Some <==> db::by_name(h.units, name) is Some,
    ensures
        same_units(g, h),
        same_records(g, h),
        same_symbols(g, h),
{
    assert forall|n: Seq<char>| #[trigger] db::by_name(h.units, n) is Some implies db::by_name(
        g.units,
        n,
    ) is Some by {
        assert(db::by_name(g.units, n) is Some <==> db::by_name(h.units, n) is Some);
    }
    assert forall|name: Seq<char>|
        match (#[trigger] db::by_name(g.units, name), db::by_name(h.units, name)) {
            (Some(u), Some(v)) => {
                &&& u.mtime_ns == v.mtime_ns
                &&& u.module_name == v.module_name
                &&& main_path(g, u) == main_path(h, v)
                &&& forall|record: Seq<char>| #[trigger]
                    mirror::made_of(g, u.id, record) == mirror::made_of(h, v.id, record)
            },
            (None, None) => true,
            _ => false,
        } by {
        if db::by_name(g.units, name) is Some {
            lemma_unit_said(g, units, records, name);
            lemma_unit_said(h, units, records, name);
            let u = db::by_name(g.units, name).unwrap();
            let v = db::by_name(h.units, name).unwrap();
            assert forall|record: Seq<char>| #[trigger]
                mirror::made_of(g, u.id, record) == mirror::made_of(h, v.id, record) by {
                assert(mirror::made_of(h, v.id, record) <==> merge::has_dep(
                    units[name].data.deps,
                    record,
                ));
            }
        }
    }
    assert forall|name: Seq<char>|
        match (#[trigger] db::by_name(g.records, name), db::by_name(h.records, name)) {
            (Some(r), Some(q)) => growth::facts(g, r.id) == growth::facts(h, q.id),
            (None, None) => true,
            _ => false,
        } by {
        if db::by_name(g.records, name) is Some {
            lemma_record_there(g, h, units, records, name);
            growth::lemma_by_name_found(g.records, name);
            growth::lemma_by_name_found(h.records, name);
            lemma_record_said(g, units, records, name);
            lemma_record_said(h, units, records, name);
        }
        if db::by_name(h.records, name) is Some {
            lemma_record_there(h, g, units, records, name);
        }
    }
    assert forall|usr: Seq<char>|
        #[trigger] db::by_name(g.symbols, usr) is Some <==> db::by_name(
            h.symbols,
            usr,
        ) is Some by {
        if db::by_name(g.symbols, usr) is Some {
            lemma_symbol_there(g, h, units, records, usr);
        }
        if db::by_name(h.symbols, usr) is Some {
            lemma_symbol_there(h, g, units, records, usr);
        }
    }
}

// ---- one state after the other ------------------------------------------

/// The graph after merging one state of a store after the other, from an empty
/// one.
pub open spec fn after_all(snaps: Seq<SnapshotV>) -> Option<GraphV>
    decreases snaps.len(),
{
    if snaps.len() == 0 {
        Some(GraphV::empty())
    } else {
        match after_all(snaps.drop_last()) {
            Some(g) => match merge::merged(g, snaps.last(), false) {
                Ok(p) => Some(p.graph),
                Err(_) => None,
            },
            None => None,
        }
    }
}

/// Whether the listing and the readings are those of the store, and no main file
/// is missing.
pub open spec fn told(snap: SnapshotV, units: Units, records: Records) -> bool {
    &&& snap.listing.len() <= usize::MAX
    &&& laws::lists(snap.listing, units)
    &&& mirror::readings_true(snap.units, snap.records, units, records)
    &&& snap.missing_sources.len() == 0
}

/// Whether a unit that keeps its time keeps what it says.
pub open spec fn follows(units: Units, later: Units) -> bool {
    forall|name: Seq<char>| #[trigger]
        units.contains_key(name) && later.contains_key(name) && later[name].mtime_ns
            == units[name].mtime_ns ==> later[name] == units[name]
}

/// Whether the readings are those of the states of a store, one after the other.
pub open spec fn history(
    snaps: Seq<SnapshotV>,
    states: Seq<Units>,
    records: Records,
) -> bool {
    &&& snaps.len() == states.len()
    &&& forall|i: int| 0 <= i < snaps.len() ==> told(#[trigger] snaps[i], states[i], records)
    &&& forall|i: int|
        0 < i < states.len() ==> follows(states[i - 1], #[trigger] states[i])
}

/// Whether the graph has exactly the units of the store.
pub open spec fn has_all(g: GraphV, units: Units) -> bool {
    forall|name: Seq<char>|
        #[trigger] db::by_name(g.units, name) is Some <==> units.contains_key(name)
}

/// A graph whose units are all listed has no more of them than are listed.
proof fn lemma_units_len(g: GraphV, listing: Seq<StampV>)
    requires
        g.keyed(),
        forall|i: int|
            0 <= i < g.units.len() ==> exists|k: int|
                db::has_name_at(listing, (#[trigger] g.units[i]).name, k),
    ensures
        g.units.len() <= listing.len(),
{
    let a = g.units.map_values(|u: UnitV| u.name);
    let b = listing.map_values(|s: StampV| s.name);
    assert forall|i: int, j: int| 0 <= i < a.len() && 0 <= j < a.len() && i != j implies a[i]
        != a[j] by {
        if a[i] == a[j] {
            db::lemma_by_name(g.units, i);
            db::lemma_by_name(g.units, j);
            db::lemma_by_id(g.units, i);
            db::lemma_by_id(g.units, j);
            if i < j {
                assert(g.units[i].id < g.units[j].id);
            } else {
                assert(g.units[j].id < g.units[i].id);
            }
        }
    }
    a.unique_seq_to_set();
    assert(a.to_set().subset_of(b.to_set())) by {
        assert forall|name: Seq<char>| #[trigger]
            a.to_set().contains(name) implies b.to_set().contains(name) by {
            let i = choose|i: int| 0 <= i < a.len() && a[i] == name;
            let k = choose|k: int| db::has_name_at(listing, g.units[i].name, k);
            assert(db::has_name_at(listing, g.units[i].name, k));
            assert(b[k] == name);
        }
    }
    vstd::seq_lib::seq_to_set_is_finite(b);
    vstd::set_lib::lemma_len_subset(a.to_set(), b.to_set());
    b.lemma_cardinality_of_set();
}

/// A merge of a store none of whose main files is missing makes an image of it.
proof fn lemma_image_made(
    g: GraphV,
    snap: SnapshotV,
    full: bool,
    units: Units,
    records: Records,
)
    requires
        laws::faithful(merge::base(g, full), snap, units, records),
        mirror::all_linked(merge::base(g, full)),
        growth::all_used(merge::base(g, full)),
        told(snap, units, records),
        merge::merged(g, snap, full) is Ok,
    ensures
        is_image(merge::merged(g, snap, full)->Ok_0.graph, units, records),
        has_all(merge::merged(g, snap, full)->Ok_0.graph, units),
        merge::merged(g, snap, full)->Ok_0.graph.units.len() <= snap.listing.len(),
{
    let a = merge::base(g, full);
    let b = merge::merged(g, snap, full)->Ok_0.graph;
    laws::law_merge_mirrors_the_store(g, snap, full, units, records);
    laws::law_merge_keeps_the_graph_sound(g, snap, full);
    assert forall|name: Seq<char>|
        #[trigger] db::by_name(b.units, name) is Some <==> units.contains_key(name) by {
        assert(!laws::gone(a, snap.missing_sources, name));
        assert(!plan::main_missing(units[name].data, snap.missing_sources));
    }
    assert forall|i: int| 0 <= i < b.units.len() implies exists|k: int|
        db::has_name_at(snap.listing, (#[trigger] b.units[i]).name, k) by {
        assert(units.contains_key(b.units[i].name));
    }
    lemma_units_len(b, snap.listing);
}

proof fn lemma_empty_image(snap: SnapshotV, units: Units, records: Records)
    requires
        told(snap, units, records),
    ensures
        laws::faithful(GraphV::empty(), snap, units, records),
        mirror::all_linked(GraphV::empty()),
        growth::all_used(GraphV::empty()),
{
    laws::law_first_merge_is_faithful(snap, units, records);
    reveal(growth::all_used);
}

/// Merging one state of a store after the other makes an image of the last.
proof fn lemma_last_image(snaps: Seq<SnapshotV>, states: Seq<Units>, records: Records)
    requires
        history(snaps, states, records),
        snaps.len() > 0,
        after_all(snaps) is Some,
    ensures
        is_image(after_all(snaps).unwrap(), states.last(), records),
        has_all(after_all(snaps).unwrap(), states.last()),
        after_all(snaps).unwrap().units.len() <= usize::MAX,
    decreases snaps.len(),
{
    let n = snaps.len() - 1;
    let before = snaps.drop_last();
    let g = after_all(before).unwrap();
    let snap = snaps.last();
    let units = states.last();
    assert(told(snaps[n], states[n], records));
    if n == 0 {
        lemma_empty_image(snap, units, records);
    } else {
        let earlier = states.drop_last();
        assert forall|i: int| 0 <= i < before.len() implies told(
            #[trigger] before[i],
            earlier[i],
            records,
        ) by {
            assert(told(snaps[i], states[i], records));
        }
        assert forall|i: int| 0 < i < earlier.len() implies follows(
            earlier[i - 1],
            #[trigger] earlier[i],
        ) by {
            assert(follows(states[i - 1], states[i]));
        }
        lemma_last_image(before, earlier, records);
        assert(follows(states[n - 1], states[n]));
        laws::law_next_merge_is_faithful(g, snap, earlier.last(), records, units, records);
    }
    lemma_image_made(g, snap, false, units, records);
}

/// Merging one state of a store after the other gives what one merge of the last
/// state into an empty graph does: the same units, with the same times, modules,
/// main files and records, the same records, with the same occurrences and
/// relations, and the same symbols.
pub proof fn law_updates_equal_a_rebuild(
    snaps: Seq<SnapshotV>,
    states: Seq<Units>,
    records: Records,
    g: GraphV,
    anew: SnapshotV,
)
    requires
        history(snaps, states, records),
        snaps.len() > 0,
        after_all(snaps) is Some,
        told(anew, states.last(), records),
        merge::merged(g, anew, true) is Ok,
    ensures
        same_units(after_all(snaps).unwrap(), merge::merged(g, anew, true)->Ok_0.graph),
        same_records(after_all(snaps).unwrap(), merge::merged(g, anew, true)->Ok_0.graph),
        same_symbols(after_all(snaps).unwrap(), merge::merged(g, anew, true)->Ok_0.graph),
{
    let units = states.last();
    let a = after_all(snaps).unwrap();
    let b = merge::merged(g, anew, true)->Ok_0.graph;
    lemma_last_image(snaps, states, records);
    lemma_empty_image(anew, units, records);
    lemma_image_made(g, anew, true, units, records);
    assert forall|name: Seq<char>|
        #[trigger] db::by_name(a.units, name) is Some <==> db::by_name(b.units, name) is Some by {
        assert(units.contains_key(name) <==> db::by_name(b.units, name) is Some);
    }
    law_images_of_a_store_agree(a, b, units, records);
}

} // verus!
