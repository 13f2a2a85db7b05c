//! What a merge makes of the graph: an image of the store.
use vstd::prelude::*;

use crate::db::{self, GraphV, LinkRow, OccRow, RecordV, RelationRow, SymbolV, UnitV};
use crate::ffi::{OccurrenceV, RecordDepV};
use crate::growth;
use crate::merge::{self, Progress};
use crate::plan;
use crate::rows;
use crate::store::{self, RecordDataV, StampV, UnitDataV};

verus! {

// ---- what is true of a store --------------------------------------------

/// A unit of a store: when it was modified, and what it says.
pub struct UnitSaid {
    pub mtime_ns: i64,
    pub data: UnitDataV,
}

/// A record of a store: what it says, and the paths that units give for it.
pub struct RecordSaid {
    pub occurrences: Seq<OccurrenceV>,
    pub paths: Set<Seq<char>>,
}

/// Units by their names.
pub type Units = Map<Seq<char>, UnitSaid>;

/// Records by their names. What a record says never changes under its name, as
/// the name is made from the contents.
pub type Records = Map<Seq<char>, RecordSaid>;

/// Whether the graph says of the record what the store does.
pub open spec fn record_true(g: GraphV, r: RecordV, records: Records) -> bool {
    &&& records.contains_key(r.name)
    &&& growth::facts(g, r.id) == growth::facts_said(records[r.name].occurrences)
    &&& db::by_id(g.files, r.file_id) matches Some(f) && records[r.name].paths.contains(f.path)
}

/// Whether the graph says of each of its records what the store does.
pub open spec fn records_true(g: GraphV, records: Records) -> bool {
    forall|i: int| 0 <= i < g.records.len() ==> record_true(g, #[trigger] g.records[i], records)
}

/// Whether the unit of the graph is made of the record of the name.
pub open spec fn made_of(g: GraphV, unit_id: i64, name: Seq<char>) -> bool {
    match db::by_name(g.records, name) {
        Some(r) => g.links.contains(LinkRow { unit_id, record_id: r.id }),
        None => false,
    }
}

/// Whether the unit of the graph has the main file. An empty path counts as
/// none.
pub open spec fn main_true(g: GraphV, u: UnitV, main_file: Option<Seq<char>>) -> bool {
    match u.main_file_id {
        Some(id) => match db::by_id(g.files, id) {
            Some(f) => main_file == Some(f.path) && f.path.len() > 0,
            None => false,
        },
        None => match main_file {
            Some(path) => path.len() == 0,
            None => true,
        },
    }
}

/// Whether the graph says of the unit what the store does.
pub open spec fn unit_true(g: GraphV, u: UnitV, said: UnitSaid) -> bool {
    &&& u.mtime_ns == said.mtime_ns
    &&& u.module_name == said.data.module_name
    &&& main_true(g, u, said.data.main_file)
    &&& forall|name: Seq<char>|
        #[trigger] made_of(g, u.id, name) <==> merge::has_dep(said.data.deps, name)
}

/// Whether each unit of the graph is one of the store, and the graph says of it
/// what the store does.
pub open spec fn units_true(g: GraphV, units: Units) -> bool {
    forall|i: int|
        0 <= i < g.units.len() ==> units.contains_key((#[trigger] g.units[i]).name) && unit_true(
            g,
            g.units[i],
            units[g.units[i].name],
        )
}

/// Whether what was read of records is what the store says.
pub open spec fn records_read_true(read: Seq<RecordDataV>, records: Records) -> bool {
    forall|i: int|
        0 <= i < read.len() ==> records.contains_key((#[trigger] read[i]).name)
            && records[read[i].name].occurrences == read[i].occurrences
}

/// Whether what was read is what the store says, as far as it was read.
pub open spec fn readings_true(
    units_read: Seq<UnitDataV>,
    records_read: Seq<RecordDataV>,
    units: Units,
    records: Records,
) -> bool {
    &&& forall|i: int|
        0 <= i < units_read.len() ==> units.contains_key((#[trigger] units_read[i]).name)
            && units[units_read[i].name].data == units_read[i]
    &&& records_read_true(records_read, records)
    &&& forall|name: Seq<char>| #[trigger]
        units.contains_key(name) ==> deps_known(units[name].data.deps, records)
}

/// Whether the store has the records, under paths that it gives for them.
pub open spec fn deps_known(deps: Seq<RecordDepV>, records: Records) -> bool {
    forall|i: int|
        0 <= i < deps.len() ==> records.contains_key((#[trigger] deps[i]).name)
            && records[deps[i].name].paths.contains(deps[i].file_path)
}

// ---- what stays true ----------------------------------------------------

/// What was read under a name has that name.
pub proof fn lemma_first_named<T: db::HasName>(s: Seq<T>, name: Seq<char>)
    requires
        store::first_named(s, name) is Some,
    ensures
        s.contains(store::first_named(s, name).unwrap()),
        store::first_named(s, name).unwrap().key() == name,
    decreases s.len(),
{
    if s[0].key() == name {
        assert(s.contains(s[0]));
    } else {
        let t = s.drop_first();
        lemma_first_named(t, name);
        let x = store::first_named(t, name).unwrap();
        let i = choose|i: int| 0 <= i < t.len() && t[i] == x;
        assert(s[i + 1] == x);
    }
}

proof fn lemma_by_name_starts<T: db::HasName>(a: Seq<T>, b: Seq<T>, name: Seq<char>)
    requires
        growth::starts(a, b),
        db::names_differ(b),
        db::by_name(a, name) is Some,
    ensures
        db::by_name(b, name) == db::by_name(a, name),
{
    let i = choose|i: int| db::has_name_at(a, name, i);
    assert(db::has_name_at(a, name, i));
    assert(b[i] == a[i]);
    db::lemma_by_name(b, i);
}

/// Records stay true when the graph grows by true ones.
pub proof fn lemma_records_true_grown(a: GraphV, b: GraphV, records: Records)
    requires
        growth::sound(a),
        growth::sound(b),
        growth::grown(a, b),
        records_true(a, records),
        forall|i: int|
            a.records.len() <= i < b.records.len() ==> record_true(
                b,
                #[trigger] b.records[i],
                records,
            ),
    ensures
        records_true(b, records),
{
    assert forall|i: int| 0 <= i < b.records.len() implies record_true(
        b,
        #[trigger] b.records[i],
        records,
    ) by {
        if i < a.records.len() {
            assert(a.records[i] == b.records[i]);
            let r = a.records[i];
            assert(record_true(a, r, records));
            db::lemma_by_id(a.records, i);
            growth::lemma_facts_grown(a, b, r.id);
            growth::lemma_by_id_starts(a.files, b.files, r.file_id);
        }
    }
}

/// Whether the two graphs have the same links of the unit.
pub open spec fn same_links(a: GraphV, b: GraphV, unit_id: i64) -> bool {
    forall|record_id: i64|
        #[trigger] a.links.contains(LinkRow { unit_id, record_id }) <==> b.links.contains(
            LinkRow { unit_id, record_id },
        )
}

/// A unit is made of the same records where its links are the same.
proof fn lemma_made_of_same(a: GraphV, b: GraphV, unit_id: i64, name: Seq<char>)
    requires
        growth::sound(a),
        growth::sound(b),
        growth::starts(a.records, b.records),
        same_links(a, b, unit_id),
    ensures
        made_of(a, unit_id, name) == made_of(b, unit_id, name),
{
    if db::by_name(a.records, name) is Some {
        lemma_by_name_starts(a.records, b.records, name);
        let r = db::by_name(a.records, name).unwrap();
        assert(a.links.contains(LinkRow { unit_id, record_id: r.id }) <==> b.links.contains(
            LinkRow { unit_id, record_id: r.id },
        ));
    } else if made_of(b, unit_id, name) {
        let r = db::by_name(b.records, name).unwrap();
        growth::lemma_by_name_found(b.records, name);
        let l = LinkRow { unit_id, record_id: r.id };
        assert(a.links.contains(l));
        let k = choose|k: int| 0 <= k < a.links.len() && a.links[k] == l;
        assert(db::by_id(a.records, a.links[k].record_id) is Some);
        growth::lemma_by_id_starts(a.records, b.records, r.id);
        growth::lemma_by_id_member(b.records, r);
        growth::lemma_by_id_found(a.records, r.id);
        growth::lemma_by_name_member(a.records, r);
    }
}

/// A unit stays true when the graph grows and its links stay.
pub proof fn lemma_unit_true_same(a: GraphV, b: GraphV, u: UnitV, said: UnitSaid)
    requires
        growth::sound(a),
        growth::sound(b),
        growth::starts(a.files, b.files),
        growth::starts(a.records, b.records),
        same_links(a, b, u.id),
        unit_true(a, u, said),
    ensures
        unit_true(b, u, said),
{
    if let Some(id) = u.main_file_id {
        growth::lemma_by_id_starts(a.files, b.files, id);
    }
    assert forall|name: Seq<char>| #[trigger]
        made_of(b, u.id, name) <==> merge::has_dep(said.data.deps, name) by {
        lemma_made_of_same(a, b, u.id, name);
        assert(made_of(a, u.id, name) <==> merge::has_dep(said.data.deps, name));
    }
}

// ---- the records of a unit ----------------------------------------------

/// What adding records of a unit leaves and makes.
pub open spec fn deps_added(a: GraphV, b: GraphV, unit_id: i64, deps: Seq<RecordDepV>) -> bool {
    &&& growth::sound(b)
    &&& growth::grown(a, b)
    &&& b.units == a.units
    &&& forall|id: i64| id != unit_id ==> #[trigger] same_links(a, b, id)
    &&& forall|name: Seq<char>| #[trigger]
        made_of(b, unit_id, name) <==> made_of(a, unit_id, name) || merge::has_dep(deps, name)
    &&& growth::all_used(a) ==> growth::all_used(b)
}

/// Making a unit of a record.
proof fn lemma_with_link(g: GraphV, unit_id: i64, r: RecordV)
    requires
        growth::sound(g),
        db::by_id(g.units, unit_id) is Some,
        g.records.contains(r),
    ensures
        ({
            let b = merge::with_link(g, unit_id, r.id);
            &&& growth::sound(b)
            &&& growth::grown(g, b)
            &&& b == (GraphV { links: b.links, ..g })
            &&& forall|id: i64| id != unit_id ==> #[trigger] same_links(g, b, id)
            &&& forall|name: Seq<char>| #[trigger]
                made_of(b, unit_id, name) <==> made_of(g, unit_id, name) || name == r.name
            &&& growth::all_used(g) ==> growth::all_used(b)
        }),
{
    let b = merge::with_link(g, unit_id, r.id);
    let l = LinkRow { unit_id, record_id: r.id };
    growth::lemma_by_id_member(g.records, r);
    growth::lemma_by_name_member(g.records, r);
    assert forall|x: LinkRow| #[trigger] b.links.contains(x) <==> g.links.contains(x) || x == l by {
        if !g.links.contains(l) {
            assert(b.links[g.links.len() as int] == l);
            if g.links.contains(x) {
                let k = choose|k: int| 0 <= k < g.links.len() && g.links[k] == x;
                assert(b.links[k] == x);
            }
            if b.links.contains(x) && x != l {
                let k = choose|k: int| 0 <= k < b.links.len() && b.links[k] == x;
                assert(g.links[k] == x);
            }
        }
    }
    assert forall|id: i64| id != unit_id implies #[trigger] same_links(g, b, id) by {
        assert forall|record_id: i64| #[trigger]
            g.links.contains(LinkRow { unit_id: id, record_id }) <==> b.links.contains(
                LinkRow { unit_id: id, record_id },
            ) by {
            let x = LinkRow { unit_id: id, record_id };
            assert(b.links.contains(x) <==> g.links.contains(x) || x == l);
        }
    }
    assert forall|name: Seq<char>| #[trigger]
        made_of(b, unit_id, name) <==> made_of(g, unit_id, name) || name == r.name by {
        if let Some(q) = db::by_name(g.records, name) {
            growth::lemma_by_name_found(g.records, name);
            growth::lemma_by_id_member(g.records, q);
            let x = LinkRow { unit_id, record_id: q.id };
            assert(b.links.contains(x) <==> g.links.contains(x) || x == l);
        }
    }
    if growth::all_used(g) {
        growth::lemma_all_used_same(g, b);
    }
}

/// Making a unit of one more record.
proof fn lemma_after_dep(
    p: Progress,
    unit_id: i64,
    unit: Seq<char>,
    dep: RecordDepV,
    read: Seq<RecordDataV>,
    records: Records,
)
    requires
        growth::sound(p.graph),
        db::by_id(p.graph.units, unit_id) is Some,
        merge::after_dep(p, unit_id, unit, dep, read) is Ok,
    ensures
        ({
            let b = merge::after_dep(p, unit_id, unit, dep, read)->Ok_0.graph;
            &&& deps_added(p.graph, b, unit_id, seq![dep])
            &&& records_true(p.graph, records) && records_read_true(read, records) && deps_known(
                seq![dep],
                records,
            ) ==> records_true(b, records)
        }),
{
    let g = p.graph;
    let b = merge::after_dep(p, unit_id, unit, dep, read)->Ok_0.graph;
    let told = records_true(g, records) && records_read_true(read, records) && deps_known(
        seq![dep],
        records,
    );
    if told {
        assert(records.contains_key(seq![dep][0].name));
    }
    assert forall|name: Seq<char>|
        #[trigger] merge::has_dep(seq![dep], name) <==> name == dep.name by {
        assert(seq![dep][0] == dep);
    }
    match db::by_name(g.records, dep.name) {
        Some(r) => {
            growth::lemma_by_name_found(g.records, dep.name);
            lemma_with_link(g, unit_id, r);
            if told {
                lemma_records_true_grown(g, b, records);
            }
        },
        None => {
            let data = store::first_named(read, dep.name).unwrap();
            lemma_first_named(read, dep.name);
            growth::lemma_with_record(g, dep.name, dep.file_path, data.occurrences);
            let (g1, id) = merge::with_record(
                g,
                dep.name,
                dep.file_path,
                data.occurrences,
            ).unwrap();
            let r = g1.records.last();
            assert(g1.records[g.records.len() as int] == r);
            lemma_with_link(g1, unit_id, r);
            if told {
                assert(record_true(g1, r, records));
                lemma_records_true_grown(g, g1, records);
                lemma_records_true_grown(g1, b, records);
            }
            growth::lemma_grown_trans(g, g1, b);
            assert forall|i: i64| i != unit_id implies #[trigger] same_links(g, b, i) by {
                assert(same_links(g1, b, i));
            }
            assert forall|name: Seq<char>| #[trigger]
                made_of(b, unit_id, name) <==> made_of(g, unit_id, name) || merge::has_dep(
                    seq![dep],
                    name,
                ) by {
                lemma_made_of_same(g, g1, unit_id, name);
            }
        },
    }
}

/// Making a unit of records.
proof fn lemma_after_deps(
    p: Progress,
    unit_id: i64,
    unit: Seq<char>,
    deps: Seq<RecordDepV>,
    read: Seq<RecordDataV>,
    records: Records,
)
    requires
        growth::sound(p.graph),
        db::by_id(p.graph.units, unit_id) is Some,
        merge::after_deps(p, unit_id, unit, deps, read) is Ok,
    ensures
        ({
            let b = merge::after_deps(p, unit_id, unit, deps, read)->Ok_0.graph;
            &&& deps_added(p.graph, b, unit_id, deps)
            &&& records_true(p.graph, records) && records_read_true(read, records) && deps_known(
                deps,
                records,
            ) ==> records_true(b, records)
        }),
    decreases deps.len(),
{
    let g = p.graph;
    let b = merge::after_deps(p, unit_id, unit, deps, read)->Ok_0.graph;
    if deps.len() > 0 {
        let one = seq![deps[0]];
        let rest = deps.drop_first();
        lemma_after_dep(p, unit_id, unit, deps[0], read, records);
        let p1 = merge::after_dep(p, unit_id, unit, deps[0], read)->Ok_0;
        let g1 = p1.graph;
        if deps_known(deps, records) {
            assert(deps_known(one, records));
            assert forall|i: int| 0 <= i < rest.len() implies records.contains_key(
                (#[trigger] rest[i]).name,
            ) && records[rest[i].name].paths.contains(rest[i].file_path) by {
                assert(rest[i] == deps[i + 1]);
            }
        }
        lemma_after_deps(p1, unit_id, unit, rest, read, records);
        growth::lemma_grown_trans(g, g1, b);
        assert forall|id: i64| id != unit_id implies #[trigger] same_links(g, b, id) by {
            assert(same_links(g, g1, id));
            assert(same_links(g1, b, id));
            assert forall|record_id: i64| #[trigger]
                g.links.contains(LinkRow { unit_id: id, record_id }) <==> b.links.contains(
                    LinkRow { unit_id: id, record_id },
                ) by {
                assert(g1.links.contains(LinkRow { unit_id: id, record_id }) <==> b.links.contains(
                    LinkRow { unit_id: id, record_id },
                ));
            }
        }
        assert forall|name: Seq<char>| #[trigger]
            made_of(b, unit_id, name) <==> made_of(g, unit_id, name) || merge::has_dep(
                deps,
                name,
            ) by {
            assert(made_of(g1, unit_id, name) <==> made_of(g, unit_id, name) || merge::has_dep(
                one,
                name,
            ));
            if merge::has_dep(one, name) {
                assert(deps[0].name == name);
            }
            if merge::has_dep(rest, name) {
                let i = choose|i: int| 0 <= i < rest.len() && (#[trigger] rest[i]).name == name;
                assert(deps[i + 1].name == name);
            }
            if merge::has_dep(deps, name) {
                let i = choose|i: int| 0 <= i < deps.len() && (#[trigger] deps[i]).name == name;
                if i == 0 {
                    assert(one[0].name == name);
                } else {
                    assert(rest[i - 1].name == name);
                }
            }
        }
    } else {
        assert forall|name: Seq<char>| !#[trigger] merge::has_dep(deps, name) by {}
    }
}

// ---- units --------------------------------------------------------------

/// Removing a unit.
pub proof fn lemma_without_unit(g: GraphV, id: i64)
    requires
        growth::sound(g),
    ensures
        ({
            let b = merge::without_unit(g, id);
            &&& growth::sound(b)
            &&& growth::grown(g, b)
            &&& b == (GraphV { units: b.units, links: b.links, ..g })
            &&& forall|u: UnitV| #[trigger]
                b.units.contains(u) <==> g.units.contains(u) && u.id != id
            &&& forall|i: i64| i != id ==> #[trigger] same_links(g, b, i)
            &&& forall|record_id: i64| !#[trigger] b.links.contains(
                LinkRow { unit_id: id, record_id },
            )
            &&& db::by_id(b.units, id) is None
        }),
{
    let b = merge::without_unit(g, id);
    let pu = |u: UnitV| u.id != id;
    let pl = |l: LinkRow| l.unit_id != id;
    assert forall|u: UnitV| #[trigger]
        b.units.contains(u) <==> g.units.contains(u) && u.id != id by {
        rows::lemma_keep_members(g.units, pu, u);
    }
    assert forall|l: LinkRow| #[trigger]
        b.links.contains(l) <==> g.links.contains(l) && l.unit_id != id by {
        rows::lemma_keep_members(g.links, pl, l);
    }
    db::lemma_ascending_keep(g.units, pu);
    db::lemma_names_keep(g.units, pu);
    growth::lemma_by_id_keep(g.units, pu, id);
    assert forall|i: int| 0 <= i < b.links.len() implies db::by_id(
        b.units,
        (#[trigger] b.links[i]).unit_id,
    ) is Some && db::by_id(b.records, b.links[i].record_id) is Some by {
        let l = b.links[i];
        assert(b.links.contains(l));
        let k = choose|k: int| 0 <= k < g.links.len() && g.links[k] == l;
        assert(db::by_id(g.units, g.links[k].unit_id) is Some);
        growth::lemma_by_id_found(g.units, l.unit_id);
        growth::lemma_by_id_keep(g.units, pu, l.unit_id);
    }
    assert forall|i: int| 0 <= i < b.units.len() implies (
    (#[trigger] b.units[i]).main_file_id matches Some(f) ==> db::by_id(b.files, f) is Some) by {
        let u = b.units[i];
        assert(b.units.contains(u));
        let k = choose|k: int| 0 <= k < g.units.len() && g.units[k] == u;
        assert(g.units[k].main_file_id == u.main_file_id);
    }
    assert forall|i: i64| i != id implies #[trigger] same_links(g, b, i) by {
        assert forall|record_id: i64| #[trigger]
            g.links.contains(LinkRow { unit_id: i, record_id }) <==> b.links.contains(
                LinkRow { unit_id: i, record_id },
            ) by {
            let l = LinkRow { unit_id: i, record_id };
            assert(b.links.contains(l) <==> g.links.contains(l) && l.unit_id != id);
        }
    }
}

/// What putting a unit into the graph leaves and makes, before its links.
pub open spec fn bare_unit_put(a: GraphV, b: GraphV, id: i64, s: StampV, data: UnitDataV) -> bool {
    &&& growth::sound(b)
    &&& growth::grown(a, b)
    &&& db::by_id(b.units, id) matches Some(n) && {
        &&& n.id == id
        &&& n.name == s.name
        &&& n.mtime_ns == s.mtime_ns
        &&& n.module_name == data.module_name
        &&& main_true(b, n, data.main_file)
        &&& forall|u: UnitV| #[trigger]
            b.units.contains(u) <==> (a.units.contains(u) && u.name != s.name) || u == n
    }
    &&& forall|u: UnitV|
        #[trigger] a.units.contains(u) && u.name != s.name ==> same_links(a, b, u.id)
    &&& forall|name: Seq<char>| !#[trigger] made_of(b, id, name)
    &&& growth::all_used(a) ==> growth::all_used(b)
}

/// What the unit of a name leaves behind.
spec fn unit_taken(a: GraphV, b: GraphV, name: Seq<char>) -> bool {
    &&& growth::sound(b)
    &&& growth::grown(a, b)
    &&& db::by_name(b.units, name) is None
    &&& forall|u: UnitV| #[trigger]
        b.units.contains(u) <==> a.units.contains(u) && u.name != name
    &&& forall|u: UnitV|
        #[trigger] a.units.contains(u) && u.name != name ==> same_links(a, b, u.id)
    &&& growth::all_used(a) ==> growth::all_used(b)
}

/// Taking the unit of a name out of the graph.
proof fn lemma_without_named(g: GraphV, name: Seq<char>)
    requires
        growth::sound(g),
    ensures
        unit_taken(g, merge::without_named(g, name), name),
{
    let b = merge::without_named(g, name);
    match db::by_name(g.units, name) {
        Some(old_unit) => {
            growth::lemma_by_name_found(g.units, name);
            lemma_without_unit(g, old_unit.id);
            assert forall|u: UnitV| #[trigger]
                b.units.contains(u) <==> g.units.contains(u) && u.name != name by {
                if g.units.contains(u) {
                    growth::lemma_by_name_member(g.units, u);
                    growth::lemma_by_id_member(g.units, u);
                    growth::lemma_by_id_member(g.units, old_unit);
                }
            }
            assert forall|u: UnitV|
                #[trigger] g.units.contains(u) && u.name != name implies same_links(
                g,
                b,
                u.id,
            ) by {
                assert(b.units.contains(u));
            }
            if db::by_name(b.units, name) is Some {
                growth::lemma_by_name_found(b.units, name);
                assert(b.units.contains(db::by_name(b.units, name).unwrap()));
            }
            if growth::all_used(g) {
                growth::lemma_all_used_same(g, b);
            }
        },
        None => {
            assert forall|u: UnitV| #[trigger] g.units.contains(u) implies u.name != name by {
                growth::lemma_by_name_member(g.units, u);
            }
        },
    }
}

/// Putting a unit into the graph, before its links.
proof fn lemma_with_bare_unit(g: GraphV, s: StampV, data: UnitDataV)
    requires
        growth::sound(g),
        merge::with_bare_unit(g, s, data) is Some,
    ensures
        ({
            let (b, id) = merge::with_bare_unit(g, s, data).unwrap();
            bare_unit_put(g, b, id, s, data)
        }),
{
    let (b, id) = merge::with_bare_unit(g, s, data).unwrap();
    let g0 = merge::without_named(g, s.name);
    lemma_without_named(g, s.name);
    let has_main = data.main_file is Some && data.main_file.unwrap().len() > 0;
    let g1 = if has_main {
        merge::with_file(g0, data.main_file.unwrap()).unwrap().0
    } else {
        g0
    };
    if has_main {
        growth::lemma_with_file(g0, data.main_file.unwrap());
    }
    growth::lemma_grown_trans(g, g0, g1);
    let n = b.units.last();
    assert(b == (GraphV { units: g1.units.push(n), ..g1 }));
    growth::lemma_next_id_new(g1.units);
    db::lemma_ascending_push(g1.units, n);
    assert(db::by_name(g1.units, s.name) is None) by {
        if db::by_name(g1.units, s.name) is Some {
            growth::lemma_by_name_found(g1.units, s.name);
            assert(g0.units.contains(db::by_name(g1.units, s.name).unwrap()));
        }
    }
    db::lemma_names_push(g1.units, n);
    growth::lemma_by_id_push(g1.units, n, id);
    growth::lemma_closed_extended(g1, b);
    growth::lemma_grown_trans(g, g1, b);
    assert forall|u: UnitV| #[trigger]
        b.units.contains(u) <==> (g.units.contains(u) && u.name != s.name) || u == n by {
        assert(g0.units.contains(u) <==> g.units.contains(u) && u.name != s.name);
        if b.units.contains(u) && u != n {
            let k = choose|k: int| 0 <= k < b.units.len() && b.units[k] == u;
            assert(g1.units[k] == u);
        }
        if g0.units.contains(u) {
            let k = choose|k: int| 0 <= k < g0.units.len() && g0.units[k] == u;
            assert(b.units[k] == u);
        }
        assert(b.units[g1.units.len() as int] == n);
    }
    assert forall|name: Seq<char>| !#[trigger] made_of(b, id, name) by {
        if made_of(b, id, name) {
            let l = LinkRow { unit_id: id, record_id: db::by_name(b.records, name).unwrap().id };
            let k = choose|k: int| 0 <= k < b.links.len() && b.links[k] == l;
            assert(g1.links[k] == l);
            assert(db::by_id(g1.units, g1.links[k].unit_id) is Some);
        }
    }
    assert forall|u: UnitV|
        #[trigger] g.units.contains(u) && u.name != s.name implies same_links(g, b, u.id) by {
        assert(same_links(g, g0, u.id));
    }
    if growth::all_used(g) {
        growth::lemma_all_used_same(g, b);
    }
}

/// What the step for a unit leaves and makes. A unit whose main file is missing
/// is not in the graph afterwards, any other is, and is true.
pub open spec fn unit_put(
    a: GraphV,
    b: GraphV,
    name: Seq<char>,
    said: UnitSaid,
    missing: Seq<Seq<char>>,
) -> bool {
    &&& growth::sound(b)
    &&& growth::grown(a, b)
    &&& match db::by_name(b.units, name) {
        Some(n) => !plan::main_missing(said.data, missing) && unit_true(b, n, said),
        None => plan::main_missing(said.data, missing),
    }
    &&& forall|u: UnitV|
        u.name != name ==> (#[trigger] b.units.contains(u) <==> a.units.contains(u))
    &&& forall|u: UnitV|
        #[trigger] a.units.contains(u) && u.name != name ==> same_links(a, b, u.id)
    &&& growth::all_used(a) ==> growth::all_used(b)
}

/// What was read of the unit.
pub open spec fn unit_read(s: StampV, units_read: Seq<UnitDataV>) -> UnitSaid {
    UnitSaid {
        mtime_ns: s.mtime_ns,
        data: store::first_named(units_read, s.name).unwrap(),
    }
}

/// Putting a unit into the graph.
pub proof fn lemma_after_unit(
    p: Progress,
    s: StampV,
    units_read: Seq<UnitDataV>,
    records_read: Seq<RecordDataV>,
    missing: Seq<Seq<char>>,
    records: Records,
)
    requires
        growth::sound(p.graph),
        merge::after_unit(p, s, units_read, records_read, missing) is Ok,
    ensures
        ({
            let b = merge::after_unit(p, s, units_read, records_read, missing)->Ok_0.graph;
            let said = unit_read(s, units_read);
            &&& unit_put(p.graph, b, s.name, said, missing)
            &&& records_true(p.graph, records) && records_read_true(records_read, records)
                && deps_known(said.data.deps, records) ==> records_true(b, records)
        }),
{
    let g = p.graph;
    let b = merge::after_unit(p, s, units_read, records_read, missing)->Ok_0.graph;
    let said = unit_read(s, units_read);
    let data = said.data;
    if plan::main_missing(data, missing) {
        lemma_without_named(g, s.name);
        if records_true(g, records) {
            lemma_records_true_grown(g, b, records);
        }
    } else {
        lemma_after_unit_put(p, s, units_read, records_read, missing, records);
    }
}

/// Putting a unit into the graph whose main file is there.
proof fn lemma_after_unit_put(
    p: Progress,
    s: StampV,
    units_read: Seq<UnitDataV>,
    records_read: Seq<RecordDataV>,
    missing: Seq<Seq<char>>,
    records: Records,
)
    requires
        growth::sound(p.graph),
        merge::after_unit(p, s, units_read, records_read, missing) is Ok,
        !plan::main_missing(unit_read(s, units_read).data, missing),
    ensures
        ({
            let b = merge::after_unit(p, s, units_read, records_read, missing)->Ok_0.graph;
            let said = unit_read(s, units_read);
            &&& unit_put(p.graph, b, s.name, said, missing)
            &&& records_true(p.graph, records) && records_read_true(records_read, records)
                && deps_known(said.data.deps, records) ==> records_true(b, records)
        }),
{
    let g = p.graph;
    let b = merge::after_unit(p, s, units_read, records_read, missing)->Ok_0.graph;
    let said = unit_read(s, units_read);
    let data = said.data;
    let (g1, id) = merge::with_bare_unit(g, s, data).unwrap();
    lemma_with_bare_unit(g, s, data);
    if records_true(g, records) {
        lemma_records_true_grown(g, g1, records);
    }
    lemma_after_deps(
        Progress { graph: g1, stats: p.stats },
        id,
        s.name,
        data.deps,
        records_read,
        records,
    );
    growth::lemma_grown_trans(g, g1, b);
    let n = db::by_id(g1.units, id).unwrap();
    assert(g1.units.contains(n));
    growth::lemma_by_name_member(g1.units, n);
    if let Some(f) = n.main_file_id {
        growth::lemma_by_id_starts(g1.files, b.files, f);
    }
    assert forall|name: Seq<char>| #[trigger]
        made_of(b, n.id, name) <==> merge::has_dep(said.data.deps, name) by {
        assert(!made_of(g1, id, name));
    }
    assert(unit_true(b, n, said));
    assert forall|u: UnitV| u.name != s.name implies (#[trigger] b.units.contains(u)
        <==> g.units.contains(u)) by {
        assert(g1.units.contains(u) <==> (g.units.contains(u) && u.name != s.name) || u == n);
    }
    assert forall|u: UnitV|
        #[trigger] g.units.contains(u) && u.name != s.name implies same_links(g, b, u.id) by {
        assert(same_links(g, g1, u.id));
        assert(g1.units.contains(u));
        if u.id == id {
            growth::lemma_by_id_member(g1.units, u);
        }
        assert(same_links(g1, b, u.id));
        assert forall|record_id: i64| #[trigger]
            g.links.contains(LinkRow { unit_id: u.id, record_id }) <==> b.links.contains(
                LinkRow { unit_id: u.id, record_id },
            ) by {
            assert(g1.links.contains(LinkRow { unit_id: u.id, record_id }) <==> b.links.contains(
                LinkRow { unit_id: u.id, record_id },
            ));
        }
    }
}

/// Whether each unit of the graph is true, or is one of the list, which are yet
/// to be put into the graph.
pub open spec fn true_or_listed(g: GraphV, list: Seq<StampV>, units: Units) -> bool {
    forall|u: UnitV| #[trigger]
        g.units.contains(u) ==> (units.contains_key(u.name) && unit_true(g, u, units[u.name]))
            || (exists|i: int| db::has_name_at(list, u.name, i))
}

/// Where one unit of the list was put into the graph, the rest is left.
proof fn lemma_true_or_listed(
    a: GraphV,
    b: GraphV,
    list: Seq<StampV>,
    units: Units,
    missing: Seq<Seq<char>>,
)
    requires
        growth::sound(a),
        list.len() > 0,
        units.contains_key(list[0].name),
        unit_put(a, b, list[0].name, units[list[0].name], missing),
        true_or_listed(a, list, units),
    ensures
        true_or_listed(b, list.drop_first(), units),
{
    let s = list[0];
    let rest = list.drop_first();
    assert forall|u: UnitV| #[trigger] b.units.contains(u) implies (units.contains_key(u.name)
        && unit_true(b, u, units[u.name])) || (exists|i: int|
        db::has_name_at(rest, u.name, i)) by {
        if u.name == s.name {
            growth::lemma_by_name_member(b.units, u);
        } else {
            assert(a.units.contains(u));
            if units.contains_key(u.name) && unit_true(a, u, units[u.name]) {
                lemma_unit_true_same(a, b, u, units[u.name]);
            } else {
                let i = choose|i: int| db::has_name_at(list, u.name, i);
                assert(db::has_name_at(list, u.name, i));
                assert(db::has_name_at(rest, u.name, i - 1));
            }
        }
    }
}

/// Whether the units of the list are those of the store, with their times.
pub open spec fn stamps_true(list: Seq<StampV>, units: Units) -> bool {
    forall|i: int|
        0 <= i < list.len() ==> units.contains_key((#[trigger] list[i]).name)
            && units[list[i].name].mtime_ns == list[i].mtime_ns
}

/// What was read of a unit is what the store says.
pub proof fn lemma_unit_read(
    s: StampV,
    units_read: Seq<UnitDataV>,
    records_read: Seq<RecordDataV>,
    units: Units,
    records: Records,
)
    requires
        store::first_named(units_read, s.name) is Some,
        readings_true(units_read, records_read, units, records),
        units.contains_key(s.name),
        units[s.name].mtime_ns == s.mtime_ns,
    ensures
        unit_read(s, units_read) == units[s.name],
        deps_known(units[s.name].data.deps, records),
{
    lemma_first_named(units_read, s.name);
    let data = store::first_named(units_read, s.name).unwrap();
    let k = choose|k: int| 0 <= k < units_read.len() && units_read[k] == data;
    assert(units[units_read[k].name].data == units_read[k]);
}

/// Each unit of the list was read, where no step failed.
pub proof fn lemma_listed_read(
    p: Progress,
    list: Seq<StampV>,
    units_read: Seq<UnitDataV>,
    records_read: Seq<RecordDataV>,
    missing: Seq<Seq<char>>,
    i: int,
)
    requires
        merge::after_units(p, list, units_read, records_read, missing) is Ok,
        0 <= i < list.len(),
    ensures
        store::first_named(units_read, list[i].name) is Some,
    decreases list.len(),
{
    if i > 0 {
        let p1 = merge::after_unit(p, list[0], units_read, records_read, missing)->Ok_0;
        let p2 = Progress {
            graph: p1.graph,
            stats: merge::MergeStats {
                units_processed: (p1.stats.units_processed + 1) as usize,
                ..p1.stats
            },
        };
        lemma_listed_read(p2, list.drop_first(), units_read, records_read, missing, i - 1);
    }
}

/// Putting units into the graph.
pub proof fn lemma_after_units(
    p: Progress,
    list: Seq<StampV>,
    units_read: Seq<UnitDataV>,
    records_read: Seq<RecordDataV>,
    missing: Seq<Seq<char>>,
    units: Units,
    records: Records,
)
    requires
        growth::sound(p.graph),
        merge::after_units(p, list, units_read, records_read, missing) is Ok,
    ensures
        ({
            let b = merge::after_units(p, list, units_read, records_read, missing)->Ok_0.graph;
            &&& growth::sound(b)
            &&& growth::grown(p.graph, b)
            &&& growth::all_used(p.graph) ==> growth::all_used(b)
            &&& records_true(p.graph, records) && readings_true(
                units_read,
                records_read,
                units,
                records,
            ) && stamps_true(list, units) && true_or_listed(p.graph, list, units) ==> records_true(
                b,
                records,
            ) && units_true(b, units)
        }),
    decreases list.len(),
{
    let g = p.graph;
    let b = merge::after_units(p, list, units_read, records_read, missing)->Ok_0.graph;
    let told = records_true(g, records) && readings_true(units_read, records_read, units, records)
        && stamps_true(list, units) && true_or_listed(g, list, units);
    if list.len() == 0 {
        if told {
            assert forall|i: int| 0 <= i < g.units.len() implies units.contains_key(
                (#[trigger] g.units[i]).name,
            ) && unit_true(g, g.units[i], units[g.units[i].name]) by {
                let u = g.units[i];
                assert(g.units.contains(u));
                assert forall|k: int| !db::has_name_at(list, u.name, k) by {}
            }
        }
    } else {
        let s = list[0];
        let rest = list.drop_first();
        let p1 = merge::after_unit(p, s, units_read, records_read, missing)->Ok_0;
        let g1 = p1.graph;
        lemma_after_unit(p, s, units_read, records_read, missing, records);
        let p2 = Progress {
            graph: g1,
            stats: merge::MergeStats {
                units_processed: (p1.stats.units_processed + 1) as usize,
                ..p1.stats
            },
        };
        if told {
            lemma_unit_read(s, units_read, records_read, units, records);
            assert forall|i: int| 0 <= i < rest.len() implies units.contains_key(
                (#[trigger] rest[i]).name,
            ) && units[rest[i].name].mtime_ns == rest[i].mtime_ns by {
                assert(rest[i] == list[i + 1]);
            }
            lemma_true_or_listed(g, g1, list, units, missing);
        }
        lemma_after_units(p2, rest, units_read, records_read, missing, units, records);
        growth::lemma_grown_trans(g, g1, b);
    }
}

/// A unit that is not one of the list stays, with its records.
pub proof fn lemma_others_stay(
    p: Progress,
    list: Seq<StampV>,
    units_read: Seq<UnitDataV>,
    records_read: Seq<RecordDataV>,
    missing: Seq<Seq<char>>,
    u: UnitV,
)
    requires
        growth::sound(p.graph),
        merge::after_units(p, list, units_read, records_read, missing) is Ok,
        p.graph.units.contains(u),
        forall|i: int| !db::has_name_at(list, u.name, i),
    ensures
        ({
            let b = merge::after_units(p, list, units_read, records_read, missing)->Ok_0.graph;
            b.units.contains(u) && same_links(p.graph, b, u.id)
        }),
    decreases list.len(),
{
    if list.len() > 0 {
        let g = p.graph;
        let s = list[0];
        let rest = list.drop_first();
        let b = merge::after_units(p, list, units_read, records_read, missing)->Ok_0.graph;
        let p1 = merge::after_unit(p, s, units_read, records_read, missing)->Ok_0;
        let g1 = p1.graph;
        lemma_after_unit(p, s, units_read, records_read, missing, Map::empty());
        let p2 = Progress {
            graph: g1,
            stats: merge::MergeStats {
                units_processed: (p1.stats.units_processed + 1) as usize,
                ..p1.stats
            },
        };
        assert(!db::has_name_at(list, u.name, 0));
        assert(g1.units.contains(u));
        assert(same_links(g, g1, u.id));
        assert forall|i: int| !db::has_name_at(rest, u.name, i) by {
            assert(!db::has_name_at(list, u.name, i + 1));
        }
        lemma_others_stay(p2, rest, units_read, records_read, missing, u);
        assert forall|record_id: i64| #[trigger]
            g.links.contains(LinkRow { unit_id: u.id, record_id }) <==> b.links.contains(
                LinkRow { unit_id: u.id, record_id },
            ) by {
            assert(g1.links.contains(LinkRow { unit_id: u.id, record_id }) <==> b.links.contains(
                LinkRow { unit_id: u.id, record_id },
            ));
        }
    }
}

// ---- what is left over --------------------------------------------------

/// Whether a unit is made of each record.
pub open spec fn all_linked(g: GraphV) -> bool {
    forall|i: int| 0 <= i < g.records.len() ==> merge::is_linked(g, (#[trigger] g.records[i]).id)
}

/// Without dead records, the graph keeps its keys and has no loose ends.
proof fn lemma_without_dead_sound(g: GraphV)
    requires
        growth::sound(g),
    ensures
        growth::sound(merge::without_dead(g)),
        all_linked(merge::without_dead(g)),
{
    let b = merge::without_dead(g);
    let pr = |r: RecordV| !merge::is_dead(g, r.id);
    let po = |o: OccRow| !merge::is_dead(g, o.record_id);
    let pq = |r: RelationRow| !merge::is_dead_relation(g, r);
    db::lemma_ascending_keep(g.records, pr);
    db::lemma_names_keep(g.records, pr);
    db::lemma_ascending_keep(g.occurrences, po);
    assert forall|i: int| 0 <= i < b.records.len() implies db::by_id(
        b.files,
        (#[trigger] b.records[i]).file_id,
    ) is Some && merge::is_linked(b, b.records[i].id) by {
        let r = b.records[i];
        assert(b.records.contains(r));
        rows::lemma_keep_members(g.records, pr, r);
        let k = choose|k: int| 0 <= k < g.records.len() && g.records[k] == r;
        assert(db::by_id(g.files, g.records[k].file_id) is Some);
        db::lemma_by_id(g.records, k);
        assert(merge::is_linked(g, r.id));
    }
    assert forall|i: int| 0 <= i < b.occurrences.len() implies db::by_id(
        b.records,
        (#[trigger] b.occurrences[i]).record_id,
    ) is Some && db::by_id(b.symbols, b.occurrences[i].symbol_id) is Some by {
        let o = b.occurrences[i];
        assert(b.occurrences.contains(o));
        rows::lemma_keep_members(g.occurrences, po, o);
        let k = choose|k: int| 0 <= k < g.occurrences.len() && g.occurrences[k] == o;
        assert(db::by_id(g.records, g.occurrences[k].record_id) is Some);
        growth::lemma_by_id_found(g.records, o.record_id);
        growth::lemma_by_id_keep(g.records, pr, o.record_id);
    }
    assert forall|i: int| 0 <= i < b.relations.len() implies db::by_id(
        b.occurrences,
        (#[trigger] b.relations[i]).occ_id,
    ) is Some && db::by_id(b.symbols, b.relations[i].symbol_id) is Some by {
        let q = b.relations[i];
        assert(b.relations.contains(q));
        rows::lemma_keep_members(g.relations, pq, q);
        let k = choose|k: int| 0 <= k < g.relations.len() && g.relations[k] == q;
        assert(db::by_id(g.occurrences, g.relations[k].occ_id) is Some);
        growth::lemma_by_id_keep(g.occurrences, po, q.occ_id);
    }
    assert forall|i: int| 0 <= i < b.links.len() implies db::by_id(
        b.units,
        (#[trigger] b.links[i]).unit_id,
    ) is Some && db::by_id(b.records, b.links[i].record_id) is Some by {
        let l = g.links[i];
        assert(b.links[i] == l);
        assert(merge::is_linked(g, l.record_id));
        growth::lemma_by_id_found(g.records, l.record_id);
        growth::lemma_by_id_keep(g.records, pr, l.record_id);
    }
}

/// Without dead records, the graph says the same of the others.
proof fn lemma_without_dead_facts(g: GraphV, record_id: i64)
    requires
        growth::sound(g),
        !merge::is_dead(g, record_id),
    ensures
        growth::facts(merge::without_dead(g), record_id) == growth::facts(g, record_id),
{
    let b = merge::without_dead(g);
    let po = |o: OccRow| !merge::is_dead(g, o.record_id);
    let pq = |r: RelationRow| !merge::is_dead_relation(g, r);
    let f = growth::pick_fact(g, record_id);
    let h = growth::pick_fact(b, record_id);
    assert forall|i: int| 0 <= i < g.occurrences.len() && !po(
        #[trigger] g.occurrences[i],
    ) implies f(g.occurrences[i]) == Seq::<growth::Fact>::empty() by {}
    rows::lemma_gather_keep(g.occurrences, po, f);
    assert forall|i: int| 0 <= i < b.occurrences.len() implies h(#[trigger] b.occurrences[i])
        == f(b.occurrences[i]) by {
        let o = b.occurrences[i];
        assert(b.occurrences.contains(o));
        rows::lemma_keep_members(g.occurrences, po, o);
        growth::lemma_by_id_member(g.occurrences, o);
        let k = growth::pick_relation(g, o.id);
        assert forall|j: int| 0 <= j < g.relations.len() && !pq(
            #[trigger] g.relations[j],
        ) implies k(g.relations[j]) == Seq::<(i64, Seq<char>)>::empty() by {}
        rows::lemma_gather_keep(g.relations, pq, k);
        assert(growth::pick_relation(b, o.id) =~= k);
    }
    rows::lemma_gather_same(b.occurrences, h, f);
}

/// Without symbols that are not used, the graph keeps its keys, has no loose
/// ends, and has no idle symbols.
proof fn lemma_without_unused_sound(g: GraphV)
    requires
        growth::sound(g),
    ensures
        growth::sound(merge::without_unused(g)),
        growth::all_used(merge::without_unused(g)),
{
    let b = merge::without_unused(g);
    let p = |s: SymbolV| merge::is_used(g, s.id);
    db::lemma_ascending_keep(g.symbols, p);
    db::lemma_names_keep(g.symbols, p);
    assert forall|i: int| 0 <= i < b.occurrences.len() implies db::by_id(
        b.records,
        (#[trigger] b.occurrences[i]).record_id,
    ) is Some && db::by_id(b.symbols, b.occurrences[i].symbol_id) is Some by {
        let o = g.occurrences[i];
        assert(merge::is_used(g, o.symbol_id));
        growth::lemma_by_id_found(g.symbols, o.symbol_id);
        growth::lemma_by_id_keep(g.symbols, p, o.symbol_id);
    }
    assert forall|i: int| 0 <= i < b.relations.len() implies db::by_id(
        b.occurrences,
        (#[trigger] b.relations[i]).occ_id,
    ) is Some && db::by_id(b.symbols, b.relations[i].symbol_id) is Some by {
        let q = g.relations[i];
        assert(merge::is_used(g, q.symbol_id));
        growth::lemma_by_id_found(g.symbols, q.symbol_id);
        growth::lemma_by_id_keep(g.symbols, p, q.symbol_id);
    }
    assert forall|i: int| 0 <= i < b.symbols.len() implies merge::is_used(
        b,
        (#[trigger] b.symbols[i]).id,
    ) by {
        let s = b.symbols[i];
        assert(b.symbols.contains(s));
        rows::lemma_keep_members(g.symbols, p, s);
        assert(merge::is_used(g, s.id));
        if exists|k: int|
            0 <= k < g.occurrences.len() && (#[trigger] g.occurrences[k]).symbol_id == s.id {
            let k = choose|k: int|
                0 <= k < g.occurrences.len() && (#[trigger] g.occurrences[k]).symbol_id == s.id;
            assert(b.occurrences[k].symbol_id == s.id);
        } else {
            let k = choose|k: int|
                0 <= k < g.relations.len() && (#[trigger] g.relations[k]).symbol_id == s.id;
            assert(b.relations[k].symbol_id == s.id);
        }
    }
    reveal(growth::all_used);
}

/// Without symbols that are not used, the graph says the same of records.
proof fn lemma_without_unused_facts(g: GraphV, record_id: i64)
    requires
        growth::sound(g),
    ensures
        growth::facts(merge::without_unused(g), record_id) == growth::facts(g, record_id),
{
    let b = merge::without_unused(g);
    let p = |s: SymbolV| merge::is_used(g, s.id);
    let f = growth::pick_fact(g, record_id);
    let h = growth::pick_fact(b, record_id);
    assert forall|i: int| 0 <= i < g.occurrences.len() implies h(#[trigger] g.occurrences[i])
        == f(g.occurrences[i]) by {
        let o = g.occurrences[i];
        assert(merge::is_used(g, o.symbol_id));
        growth::lemma_by_id_found(g.symbols, o.symbol_id);
        growth::lemma_by_id_keep(g.symbols, p, o.symbol_id);
        let k = growth::pick_relation(g, o.id);
        let m = growth::pick_relation(b, o.id);
        assert forall|j: int| 0 <= j < g.relations.len() implies m(#[trigger] g.relations[j])
            == k(g.relations[j]) by {
            let q = g.relations[j];
            assert(merge::is_used(g, q.symbol_id));
            growth::lemma_by_id_found(g.symbols, q.symbol_id);
            growth::lemma_by_id_keep(g.symbols, p, q.symbol_id);
        }
        rows::lemma_gather_same(g.relations, m, k);
    }
    rows::lemma_gather_same(g.occurrences, h, f);
}

/// Nothing is left over where a unit is made of each record and no symbol is
/// idle.
proof fn lemma_nothing_dead(g: GraphV)
    requires
        growth::sound(g),
        all_linked(g),
        growth::all_used(g),
    ensures
        merge::collected(g) == g,
{
    let b = merge::without_dead(g);
    assert forall|id: i64| !#[trigger] merge::is_dead(g, id) by {
        if db::by_id(g.records, id) is Some {
            growth::lemma_by_id_found(g.records, id);
            let r = db::by_id(g.records, id).unwrap();
            let k = choose|k: int| 0 <= k < g.records.len() && g.records[k] == r;
            assert(merge::is_linked(g, g.records[k].id));
        }
    }
    rows::lemma_keep_all(g.records, |r: RecordV| !merge::is_dead(g, r.id));
    rows::lemma_keep_all(g.occurrences, |o: OccRow| !merge::is_dead(g, o.record_id));
    rows::lemma_keep_all(g.relations, |r: RelationRow| !merge::is_dead_relation(g, r));
    assert(b =~= g);
    reveal(growth::all_used);
    rows::lemma_keep_all(g.symbols, |s: SymbolV| merge::is_used(g, s.id));
    assert(merge::without_unused(g) =~= g);
}

/// Removing what is left over removes exactly the records that no unit is made
/// of. What the graph says of the others, its units and their records, stays.
/// Afterwards a unit is made of each record, and no symbol is idle.
pub proof fn law_gc_removes_what_is_left_over(g: GraphV)
    requires
        growth::sound(g),
    ensures
        ({
            let b = merge::collected(g);
            &&& growth::sound(b)
            &&& b.units == g.units
            &&& b.links == g.links
            &&& b.files == g.files
            &&& forall|r: RecordV| #[trigger]
                b.records.contains(r) <==> g.records.contains(r) && merge::is_linked(g, r.id)
            &&& forall|r: RecordV| #[trigger]
                b.records.contains(r) ==> growth::facts(b, r.id) == growth::facts(g, r.id)
            &&& forall|unit_id: i64, name: Seq<char>| #[trigger]
                made_of(b, unit_id, name) == made_of(g, unit_id, name)
            &&& all_linked(b)
            &&& growth::all_used(b)
        }),
{
    let g1 = merge::without_dead(g);
    let b = merge::collected(g);
    let pr = |r: RecordV| !merge::is_dead(g, r.id);
    lemma_without_dead_sound(g);
    lemma_without_unused_sound(g1);
    assert forall|r: RecordV| #[trigger]
        b.records.contains(r) <==> g.records.contains(r) && merge::is_linked(g, r.id) by {
        rows::lemma_keep_members(g.records, pr, r);
        if g.records.contains(r) {
            growth::lemma_by_id_member(g.records, r);
        }
    }
    assert forall|r: RecordV| #[trigger] b.records.contains(r) implies growth::facts(b, r.id)
        == growth::facts(g, r.id) by {
        rows::lemma_keep_members(g.records, pr, r);
        lemma_without_dead_facts(g, r.id);
        lemma_without_unused_facts(g1, r.id);
    }
    assert forall|unit_id: i64, name: Seq<char>| #[trigger]
        made_of(b, unit_id, name) == made_of(g, unit_id, name) by {
        if made_of(g, unit_id, name) {
            growth::lemma_by_name_found(g.records, name);
            let r = db::by_name(g.records, name).unwrap();
            let l = LinkRow { unit_id, record_id: r.id };
            let k = choose|k: int| 0 <= k < g.links.len() && g.links[k] == l;
            assert(g.links[k].record_id == r.id);
            assert(merge::is_linked(g, r.id));
            assert(b.records.contains(r));
            growth::lemma_by_name_member(b.records, r);
        }
        if made_of(b, unit_id, name) {
            growth::lemma_by_name_found(b.records, name);
            let r = db::by_name(b.records, name).unwrap();
            assert(b.records.contains(r));
            growth::lemma_by_name_member(g.records, r);
        }
    }
    assert forall|i: int| 0 <= i < b.records.len() implies merge::is_linked(
        b,
        (#[trigger] b.records[i]).id,
    ) by {
        assert(merge::is_linked(g1, g1.records[i].id));
    }
}

/// Removing what is left over a second time removes nothing.
pub proof fn law_gc_is_idempotent(g: GraphV)
    requires
        growth::sound(g),
    ensures
        merge::collected(merge::collected(g)) == merge::collected(g),
{
    law_gc_removes_what_is_left_over(g);
    lemma_nothing_dead(merge::collected(g));
}

/// Removing what is left over leaves the units and the records that stay true.
pub proof fn lemma_collected_true(g: GraphV, units: Units, records: Records)
    requires
        growth::sound(g),
        units_true(g, units),
        records_true(g, records),
    ensures
        units_true(merge::collected(g), units),
        records_true(merge::collected(g), records),
{
    let b = merge::collected(g);
    law_gc_removes_what_is_left_over(g);
    assert forall|i: int| 0 <= i < b.units.len() implies units.contains_key(
        (#[trigger] b.units[i]).name,
    ) && unit_true(b, b.units[i], units[b.units[i].name]) by {
        let u = g.units[i];
        assert(unit_true(g, u, units[u.name]));
        assert forall|name: Seq<char>| #[trigger]
            made_of(b, u.id, name) <==> merge::has_dep(units[u.name].data.deps, name) by {
            assert(made_of(b, u.id, name) == made_of(g, u.id, name));
        }
    }
    assert forall|i: int| 0 <= i < b.records.len() implies record_true(
        b,
        #[trigger] b.records[i],
        records,
    ) by {
        let r = b.records[i];
        assert(b.records.contains(r));
        let k = choose|k: int| 0 <= k < g.records.len() && g.records[k] == r;
        assert(record_true(g, g.records[k], records));
    }
}

} // verus!
