//! What a merge leaves in the tables, in terms of what the store says.
use vstd::prelude::*;

use crate::db::{
    self, FileV, GraphV, HasId, LinkRow, OccRow, RecordV, RelationRow, SymbolV, UnitV,
};
use crate::ffi::{OccurrenceV, RecordDepV, SymInfoV};
use crate::growth;
use crate::laws;
use crate::meaning;
use crate::merge::{self, MergeStats, Progress};
use crate::mirror::{self, Records, UnitSaid, Units};
use crate::plan;
use crate::rows;
use crate::store::{self, RecordDataV, SnapshotV, StampV, UnitDataV};
use crate::upkeep;

verus! {

// ---- those of a list ----------------------------------------------------

/// Collecting what is made of those elements that something holds of.
proof fn lemma_filtered<A, B>(s: Seq<A>, p: spec_fn(A) -> bool, f: spec_fn(A) -> B)
    ensures
        rows::gather(
            s,
            |x: A|
                if p(x) {
                    seq![f(x)]
                } else {
                    Seq::empty()
                },
        ) == s.filter(p).map_values(f),
    decreases s.len(),
{
    let h = |x: A|
        if p(x) {
            seq![f(x)]
        } else {
            Seq::empty()
        };
    reveal(Seq::filter);
    if s.len() == 0 {
        assert(s.filter(p).map_values(f) =~= Seq::<B>::empty());
    } else {
        let init = s.drop_last();
        let x = s.last();
        lemma_filtered(init, p, f);
        assert(s =~= init + seq![x]);
        rows::lemma_gather_concat(init, seq![x], h);
        reveal_with_fuel(rows::gather, 2);
        assert(rows::gather(seq![x], h) =~= h(x));
        if p(x) {
            assert(s.filter(p) == init.filter(p).push(x));
            assert(s.filter(p).map_values(f) =~= init.filter(p).map_values(f).push(f(x)));
            assert(rows::gather(s, h) =~= rows::gather(init, h).push(f(x)));
        } else {
            assert(rows::gather(s, h) =~= rows::gather(init, h));
        }
    }
}

proof fn lemma_kept<A>(s: Seq<A>, p: spec_fn(A) -> bool)
    ensures
        rows::keep(s, p) == s.filter(p),
{
    let f = |x: A| x;
    lemma_filtered(s, p, f);
    let h = |x: A|
        if p(x) {
            seq![f(x)]
        } else {
            Seq::empty()
        };
    assert forall|i: int| 0 <= i < s.len() implies rows::pick(p)(#[trigger] s[i]) == h(s[i]) by {}
    rows::lemma_gather_same(s, rows::pick(p), h);
    assert(s.filter(p).map_values(f) =~= s.filter(p));
}

proof fn lemma_filter_same<A>(s: Seq<A>, p: spec_fn(A) -> bool, q: spec_fn(A) -> bool)
    requires
        forall|i: int| 0 <= i < s.len() ==> p(#[trigger] s[i]) == q(s[i]),
    ensures
        s.filter(p) == s.filter(q),
    decreases s.len(),
{
    reveal(Seq::filter);
    if s.len() > 0 {
        let init = s.drop_last();
        assert forall|i: int| 0 <= i < init.len() implies p(#[trigger] init[i]) == q(init[i]) by {
            assert(init[i] == s[i]);
        }
        lemma_filter_same(init, p, q);
        assert(p(s[s.len() - 1]) == q(s[s.len() - 1]));
    }
}

// ---- records ------------------------------------------------------------

/// The occurrences of a record, in their order.
pub open spec fn occurrences_of(g: GraphV, record_id: i64) -> Seq<OccRow> {
    g.occurrences.filter(|o: OccRow| o.record_id == record_id)
}

/// The relations of an occurrence, in their order.
pub open spec fn relations_of(g: GraphV, occ_id: i64) -> Seq<RelationRow> {
    g.relations.filter(|q: RelationRow| q.occ_id == occ_id)
}

/// Whether the id is that of the symbol with the USR.
pub open spec fn has_usr(g: GraphV, id: i64, usr: Seq<char>) -> bool {
    exists|s: SymbolV| #[trigger] g.symbols.contains(s) && s.id == id && s.usr == usr
}

/// Whether the row tells the relation.
pub open spec fn tells_relation(g: GraphV, q: RelationRow, said: (u64, SymInfoV)) -> bool {
    q.roles as u64 == said.0 && has_usr(g, q.symbol_id, said.1.usr)
}

/// Whether the row tells the occurrence: its symbol, roles, line, column and
/// relations.
pub open spec fn tells_occurrence(g: GraphV, o: OccRow, said: OccurrenceV) -> bool {
    &&& has_usr(g, o.symbol_id, said.symbol.usr)
    &&& o.roles as u64 == said.roles
    &&& o.line as int == said.line as int
    &&& o.col as int == said.col as int
    &&& relations_of(g, o.id).len() == said.relations.len()
    &&& forall|k: int|
        0 <= k < said.relations.len() ==> tells_relation(
            g,
            #[trigger] relations_of(g, o.id)[k],
            said.relations[k],
        )
}

/// Whether the rows of the record tell the occurrences, one by one.
pub open spec fn tells_record(g: GraphV, record_id: i64, said: Seq<OccurrenceV>) -> bool {
    &&& occurrences_of(g, record_id).len() == said.len()
    &&& forall|k: int|
        0 <= k < said.len() ==> tells_occurrence(
            g,
            #[trigger] occurrences_of(g, record_id)[k],
            said[k],
        )
}

proof fn lemma_usr(g: GraphV, id: i64, usr: Seq<char>)
    requires
        g.keyed(),
        db::by_id(g.symbols, id) is Some,
        growth::usr_of(g, id) == usr,
    ensures
        has_usr(g, id, usr),
{
    meaning::law_ids_lead_to_rows(g.symbols, id);
    let s = db::by_id(g.symbols, id).unwrap();
    assert(g.symbols.contains(s) && s.rid() == id);
}

proof fn lemma_roles_kept(roles: u64)
    ensures
        (roles as i64) as u64 == roles,
{
    assert((roles as i64) as u64 == roles) by (bit_vector);
}

proof fn lemma_relation_rows(g: GraphV, occ_id: i64)
    ensures
        growth::relation_facts(g, occ_id) == relations_of(g, occ_id).map_values(
            |q: RelationRow| (q.roles, growth::usr_of(g, q.symbol_id)),
        ),
{
    let p = |q: RelationRow| q.occ_id == occ_id;
    let f = |q: RelationRow| (q.roles, growth::usr_of(g, q.symbol_id));
    lemma_filtered(g.relations, p, f);
    let h = |q: RelationRow|
        if p(q) {
            seq![f(q)]
        } else {
            Seq::empty()
        };
    rows::lemma_gather_same(g.relations, growth::pick_relation(g, occ_id), h);
}

proof fn lemma_occurrence_rows(g: GraphV, record_id: i64)
    ensures
        growth::facts(g, record_id) == occurrences_of(g, record_id).map_values(
            |o: OccRow| growth::fact(g, o),
        ),
{
    let p = |o: OccRow| o.record_id == record_id;
    let f = |o: OccRow| growth::fact(g, o);
    lemma_filtered(g.occurrences, p, f);
    let h = |o: OccRow|
        if p(o) {
            seq![f(o)]
        } else {
            Seq::empty()
        };
    rows::lemma_gather_same(g.occurrences, growth::pick_fact(g, record_id), h);
}

proof fn lemma_filter_among<A>(s: Seq<A>, p: spec_fn(A) -> bool, k: int)
    requires
        0 <= k < s.filter(p).len(),
    ensures
        s.contains(s.filter(p)[k]),
{
    lemma_kept(s, p);
    let x = s.filter(p)[k];
    assert(s.filter(p).contains(x));
    rows::lemma_keep_members(s, p, x);
}

proof fn lemma_occurrence_told(g: GraphV, o: OccRow, said: OccurrenceV)
    requires
        growth::sound(g),
        g.occurrences.contains(o),
        growth::fact(g, o) == growth::fact_said(said),
    ensures
        tells_occurrence(g, o, said),
{
    let i = choose|i: int| 0 <= i < g.occurrences.len() && g.occurrences[i] == o;
    assert(db::by_id(g.symbols, g.occurrences[i].symbol_id) is Some);
    lemma_usr(g, o.symbol_id, said.symbol.usr);
    lemma_roles_kept(said.roles);
    lemma_relation_rows(g, o.id);
    let rels = relations_of(g, o.id);
    let told = rels.map_values(|q: RelationRow| (q.roles, growth::usr_of(g, q.symbol_id)));
    let meant = growth::relations_said(said.relations);
    assert(told == meant);
    assert(told.len() == rels.len());
    assert forall|k: int| 0 <= k < said.relations.len() implies tells_relation(
        g,
        #[trigger] relations_of(g, o.id)[k],
        said.relations[k],
    ) by {
        let q = rels[k];
        assert(told[k] == (q.roles, growth::usr_of(g, q.symbol_id)));
        assert(meant[k] == (said.relations[k].0 as i64, said.relations[k].1.usr));
        lemma_filter_among(g.relations, |x: RelationRow| x.occ_id == o.id, k);
        let m = choose|m: int| 0 <= m < g.relations.len() && g.relations[m] == q;
        assert(db::by_id(g.symbols, g.relations[m].symbol_id) is Some);
        lemma_usr(g, q.symbol_id, said.relations[k].1.usr);
        lemma_roles_kept(said.relations[k].0);
    }
}

proof fn lemma_record_told(g: GraphV, record_id: i64, said: Seq<OccurrenceV>)
    requires
        growth::sound(g),
        growth::facts(g, record_id) == growth::facts_said(said),
    ensures
        tells_record(g, record_id, said),
{
    lemma_occurrence_rows(g, record_id);
    let occs = occurrences_of(g, record_id);
    let told = occs.map_values(|o: OccRow| growth::fact(g, o));
    let meant = growth::facts_said(said);
    assert(told.len() == occs.len());
    assert forall|k: int| 0 <= k < said.len() implies tells_occurrence(
        g,
        #[trigger] occurrences_of(g, record_id)[k],
        said[k],
    ) by {
        assert(told[k] == growth::fact(g, occs[k]));
        assert(meant[k] == growth::fact_said(said[k]));
        lemma_filter_among(g.occurrences, |o: OccRow| o.record_id == record_id, k);
        lemma_occurrence_told(g, occs[k], said[k]);
    }
}

// ---- units --------------------------------------------------------------

/// Whether the row tells the unit: its time, module, main file and records.
pub open spec fn tells_unit(g: GraphV, u: UnitV, said: UnitSaid) -> bool {
    &&& u.mtime_ns == said.mtime_ns
    &&& u.module_name == said.data.module_name
    &&& match said.data.main_file {
        Some(path) => if path.len() > 0 {
            exists|f: FileV| #[trigger]
                g.files.contains(f) && u.main_file_id == Some(f.id) && f.path == path
        } else {
            u.main_file_id is None
        },
        None => u.main_file_id is None,
    }
    &&& forall|name: Seq<char>| #[trigger] is_made_of(g, u, name) <==> exists|i: int|
        0 <= i < said.data.deps.len() && (#[trigger] said.data.deps[i]).name == name
}

/// Whether the unit is linked to a record of the name.
pub open spec fn is_made_of(g: GraphV, u: UnitV, name: Seq<char>) -> bool {
    exists|r: RecordV| #[trigger]
        g.records.contains(r) && r.name == name && g.links.contains(
            LinkRow { unit_id: u.id, record_id: r.id },
        )
}

proof fn lemma_made_of(g: GraphV, u: UnitV, name: Seq<char>)
    requires
        g.keyed(),
    ensures
        mirror::made_of(g, u.id, name) <==> is_made_of(g, u, name),
{
    if mirror::made_of(g, u.id, name) {
        growth::lemma_by_name_found(g.records, name);
    }
    if is_made_of(g, u, name) {
        let r = choose|r: RecordV| #[trigger]
            g.records.contains(r) && r.name == name && g.links.contains(
                LinkRow { unit_id: u.id, record_id: r.id },
            );
        growth::lemma_by_name_member(g.records, r);
    }
}

proof fn lemma_unit_told(g: GraphV, u: UnitV, said: UnitSaid)
    requires
        g.keyed(),
        mirror::unit_true(g, u, said),
    ensures
        tells_unit(g, u, said),
{
    if let Some(id) = u.main_file_id {
        meaning::law_ids_lead_to_rows(g.files, id);
        let f = db::by_id(g.files, id).unwrap();
        assert(g.files.contains(f) && f.rid() == id);
    }
    assert forall|name: Seq<char>| #[trigger] is_made_of(g, u, name) <==> exists|i: int|
        0 <= i < said.data.deps.len() && (#[trigger] said.data.deps[i]).name == name by {
        lemma_made_of(g, u, name);
        assert(mirror::made_of(g, u.id, name) <==> merge::has_dep(said.data.deps, name));
    }
}

/// After a merge, the tables tell what the store says: each unit of the graph is
/// one of the store and has its time, module, main file and records; each record
/// is one of the store and has its occurrences, one by one, with their symbols,
/// roles, lines, columns and relations, and one of the paths that the store gives
/// it; and each unit of the store is there whose main file, as the store and as the
/// graph knew it, is not missing.
pub proof fn law_tables_tell_the_store(
    g: GraphV,
    snap: SnapshotV,
    full: bool,
    units: Units,
    records: Records,
)
    requires
        laws::faithful(merge::base(g, full), snap, units, records),
        merge::merged(g, snap, full) is Ok,
    ensures
        ({
            let a = merge::base(g, full);
            let b = merge::merged(g, snap, full)->Ok_0.graph;
            &&& forall|u: UnitV| #[trigger]
                b.units.contains(u) ==> units.contains_key(u.name) && tells_unit(
                    b,
                    u,
                    units[u.name],
                )
            &&& forall|r: RecordV| #[trigger]
                b.records.contains(r) ==> records.contains_key(r.name) && tells_record(
                    b,
                    r.id,
                    records[r.name].occurrences,
                ) && exists|f: FileV| #[trigger]
                    b.files.contains(f) && f.id == r.file_id && records[r.name].paths.contains(
                        f.path,
                    )
            &&& forall|name: Seq<char>| #[trigger]
                units.contains_key(name) && !upkeep::names_missing(
                    units[name].data,
                    snap.missing_sources,
                ) && (forall|u: UnitV| #[trigger]
                    a.units.contains(u) && u.name == name ==> !upkeep::is_main_gone(
                        a,
                        snap.missing_sources,
                        u,
                    )) ==> exists|u: UnitV| #[trigger] b.units.contains(u) && u.name == name
        }),
{
    let a = merge::base(g, full);
    let b = merge::merged(g, snap, full)->Ok_0.graph;
    laws::law_merge_mirrors_the_store(g, snap, full, units, records);
    assert forall|u: UnitV| #[trigger] b.units.contains(u) implies units.contains_key(u.name)
        && tells_unit(b, u, units[u.name]) by {
        let i = choose|i: int| 0 <= i < b.units.len() && b.units[i] == u;
        assert(mirror::unit_true(b, b.units[i], units[b.units[i].name]));
        lemma_unit_told(b, u, units[u.name]);
    }
    assert forall|r: RecordV| #[trigger] b.records.contains(r) implies records.contains_key(r.name)
        && tells_record(b, r.id, records[r.name].occurrences) && exists|f: FileV| #[trigger]
        b.files.contains(f) && f.id == r.file_id && records[r.name].paths.contains(f.path) by {
        let i = choose|i: int| 0 <= i < b.records.len() && b.records[i] == r;
        assert(mirror::record_true(b, b.records[i], records));
        lemma_record_told(b, r.id, records[r.name].occurrences);
        meaning::law_ids_lead_to_rows(b.files, r.file_id);
        let f = db::by_id(b.files, r.file_id).unwrap();
        assert(b.files.contains(f) && f.rid() == r.file_id);
    }
    assert forall|name: Seq<char>| #[trigger]
        units.contains_key(name) && !upkeep::names_missing(units[name].data, snap.missing_sources)
            && (forall|u: UnitV| #[trigger]
            a.units.contains(u) && u.name == name ==> !upkeep::is_main_gone(
                a,
                snap.missing_sources,
                u,
            )) implies exists|u: UnitV| #[trigger] b.units.contains(u) && u.name == name by {
        if let Some(u) = db::by_name(a.units, name) {
            growth::lemma_by_name_found(a.units, name);
            assert(a.units.contains(u) && u.name == name);
            upkeep::lemma_main_gone(a, snap.missing_sources, u);
        }
        assert(!laws::gone(a, snap.missing_sources, name));
        assert(db::by_name(b.units, name) is Some);
        growth::lemma_by_name_found(b.units, name);
        let v = db::by_name(b.units, name).unwrap();
        assert(b.units.contains(v) && v.name == name);
    }
}

/// After a merge, no unit of the graph has a main file that is missing.
pub proof fn law_no_main_file_is_missing(g: GraphV, snap: SnapshotV, full: bool)
    requires
        growth::sound(merge::base(g, full)),
        laws::countable(merge::base(g, full), snap),
        merge::merged(g, snap, full) is Ok,
    ensures
        ({
            let b = merge::merged(g, snap, full)->Ok_0.graph;
            forall|u: UnitV, f: FileV| #[trigger]
                b.units.contains(u) && #[trigger] b.files.contains(f) && u.main_file_id == Some(f.id)
                    ==> !snap.missing_sources.contains(f.path)
        }),
{
    let b = merge::merged(g, snap, full)->Ok_0.graph;
    laws::law_merge_keeps_the_graph_sound(g, snap, full);
    assert forall|u: UnitV, f: FileV| #[trigger]
        b.units.contains(u) && #[trigger] b.files.contains(f) && u.main_file_id == Some(
            f.id,
        ) implies !snap.missing_sources.contains(f.path) by {
        assert(!plan::source_gone(b, snap.missing_sources, u));
        upkeep::lemma_main_gone(b, snap.missing_sources, u);
    }
}

// ---- symbols ------------------------------------------------------------

/// Whether the row has the USR, name, kind and language.
pub open spec fn tells_symbol(s: SymbolV, info: SymInfoV) -> bool {
    &&& s.usr == info.usr
    &&& s.name == info.name
    &&& s.kind as int == info.kind as int
    &&& s.lang as int == info.lang as int
}

/// A symbol that the graph does not have is added with its name, kind and
/// language; one that it has stays as it is. Either way the id leads to the
/// symbol.
pub proof fn law_symbols_are_added_as_they_are(g: GraphV, info: SymInfoV)
    requires
        g.keyed(),
        merge::with_symbol(g, info) is Some,
    ensures
        ({
            let (b, id) = merge::with_symbol(g, info).unwrap();
            &&& has_usr(b, id, info.usr)
            &&& forall|s: SymbolV| #[trigger] g.symbols.contains(s) ==> b.symbols.contains(s)
            &&& forall|s: SymbolV| #[trigger]
                b.symbols.contains(s) ==> g.symbols.contains(s) || (s.id == id && tells_symbol(
                    s,
                    info,
                ))
            &&& (exists|s: SymbolV| #[trigger] g.symbols.contains(s) && s.usr == info.usr) ==> b == g
        }),
{
    let (b, id) = merge::with_symbol(g, info).unwrap();
    match db::by_name(g.symbols, info.usr) {
        Some(row) => {
            growth::lemma_by_name_found(g.symbols, info.usr);
            assert(g.symbols.contains(row) && row.usr == info.usr);
        },
        None => {
            let n = g.symbols.len() as int;
            let row = b.symbols[n];
            assert(b.symbols.contains(row));
            assert(tells_symbol(row, info));
            assert forall|s: SymbolV| #[trigger] g.symbols.contains(s) implies b.symbols.contains(
                s,
            ) && s.usr != info.usr by {
                let i = choose|i: int| 0 <= i < g.symbols.len() && g.symbols[i] == s;
                assert(b.symbols[i] == s);
                growth::lemma_by_name_member(g.symbols, s);
            }
            assert forall|s: SymbolV| #[trigger] b.symbols.contains(s) implies g.symbols.contains(s)
                || (s.id == id && tells_symbol(s, info)) by {
                let i = choose|i: int| 0 <= i < b.symbols.len() && b.symbols[i] == s;
                if i < n {
                    assert(g.symbols[i] == s);
                }
            }
        },
    }
}

/// After a merge, each symbol has a name, kind and language that the store gives
/// its USR somewhere.
pub proof fn law_symbols_have_names_of_the_store(
    g: GraphV,
    snap: SnapshotV,
    full: bool,
    infos: Set<SymInfoV>,
)
    requires
        merge::merged(g, snap, full) is Ok,
        forall|s: SymbolV| #[trigger]
            merge::base(g, full).symbols.contains(s) ==> exists|info: SymInfoV| #[trigger]
                infos.contains(info) && tells_symbol(s, info),
        laws::readings_among(snap.records, infos),
    ensures
        forall|s: SymbolV| #[trigger]
            merge::merged(g, snap, full)->Ok_0.graph.symbols.contains(s) ==> exists|info: SymInfoV|
                #[trigger] infos.contains(info) && tells_symbol(s, info),
{
    let a = merge::base(g, full);
    let b = merge::merged(g, snap, full)->Ok_0.graph;
    assert forall|i: int| 0 <= i < a.symbols.len() implies laws::is_said(
        #[trigger] a.symbols[i],
        infos,
    ) by {
        let s = a.symbols[i];
        assert(a.symbols.contains(s));
        let info = choose|info: SymInfoV| #[trigger] infos.contains(info) && tells_symbol(s, info);
        assert(infos.contains(info) && laws::symbol_said(s, info));
    }
    laws::law_symbols_are_those_of_the_store(g, snap, full, infos);
    assert forall|s: SymbolV| #[trigger] b.symbols.contains(s) implies exists|info: SymInfoV|
        #[trigger] infos.contains(info) && tells_symbol(s, info) by {
        let i = choose|i: int| 0 <= i < b.symbols.len() && b.symbols[i] == s;
        assert(laws::is_said(b.symbols[i], infos));
        let info = choose|info: SymInfoV| #[trigger]
            infos.contains(info) && laws::symbol_said(s, info);
        assert(infos.contains(info) && tells_symbol(s, info));
    }
}

// ---- what is left over --------------------------------------------------

/// Whether a unit is made of the record.
pub open spec fn has_link(g: GraphV, record_id: i64) -> bool {
    exists|l: LinkRow| #[trigger] g.links.contains(l) && l.record_id == record_id
}

/// Whether the relation belongs to an occurrence of a record that a unit is made
/// of.
pub open spec fn has_linked_occurrence(g: GraphV, q: RelationRow) -> bool {
    exists|o: OccRow| #[trigger]
        g.occurrences.contains(o) && o.id == q.occ_id && has_link(g, o.record_id)
}

/// Whether the symbol occurs, or an occurrence is related to it.
pub open spec fn is_seen(g: GraphV, id: i64) -> bool {
    ||| exists|o: OccRow| #[trigger] g.occurrences.contains(o) && o.symbol_id == id
    ||| exists|q: RelationRow| #[trigger] g.relations.contains(q) && q.symbol_id == id
}

proof fn lemma_linked(g: GraphV, record_id: i64)
    ensures
        merge::is_linked(g, record_id) <==> has_link(g, record_id),
{
    if merge::is_linked(g, record_id) {
        let i = choose|i: int| 0 <= i < g.links.len() && (#[trigger] g.links[i]).record_id == record_id;
        assert(g.links.contains(g.links[i]));
    }
    if has_link(g, record_id) {
        let l = choose|l: LinkRow| #[trigger] g.links.contains(l) && l.record_id == record_id;
        let i = choose|i: int| 0 <= i < g.links.len() && g.links[i] == l;
        assert(g.links[i].record_id == record_id);
    }
}

proof fn lemma_seen(g: GraphV, id: i64)
    ensures
        merge::is_used(g, id) <==> is_seen(g, id),
{
    if exists|i: int| 0 <= i < g.occurrences.len() && (#[trigger] g.occurrences[i]).symbol_id == id {
        let i = choose|i: int|
            0 <= i < g.occurrences.len() && (#[trigger] g.occurrences[i]).symbol_id == id;
        assert(g.occurrences.contains(g.occurrences[i]));
    }
    if exists|i: int| 0 <= i < g.relations.len() && (#[trigger] g.relations[i]).symbol_id == id {
        let i = choose|i: int|
            0 <= i < g.relations.len() && (#[trigger] g.relations[i]).symbol_id == id;
        assert(g.relations.contains(g.relations[i]));
    }
    if exists|o: OccRow| #[trigger] g.occurrences.contains(o) && o.symbol_id == id {
        let o = choose|o: OccRow| #[trigger] g.occurrences.contains(o) && o.symbol_id == id;
        let i = choose|i: int| 0 <= i < g.occurrences.len() && g.occurrences[i] == o;
        assert(g.occurrences[i].symbol_id == id);
    }
    if exists|q: RelationRow| #[trigger] g.relations.contains(q) && q.symbol_id == id {
        let q = choose|q: RelationRow| #[trigger] g.relations.contains(q) && q.symbol_id == id;
        let i = choose|i: int| 0 <= i < g.relations.len() && g.relations[i] == q;
        assert(g.relations[i].symbol_id == id);
    }
}

/// Removing what is left over keeps, in their order, the records that a unit is
/// made of, the occurrences of these, the relations of those, and the symbols that
/// are then seen. Units, links and files stay.
pub proof fn law_what_is_left_over_goes(g: GraphV)
    requires
        growth::sound(g),
    ensures
        ({
            let b = merge::collected(g);
            &&& b.units == g.units
            &&& b.links == g.links
            &&& b.files == g.files
            &&& b.records == g.records.filter(|r: RecordV| has_link(g, r.id))
            &&& b.occurrences == g.occurrences.filter(|o: OccRow| has_link(g, o.record_id))
            &&& b.relations == g.relations.filter(|q: RelationRow| has_linked_occurrence(g, q))
            &&& b.symbols == g.symbols.filter(|s: SymbolV| is_seen(b, s.id))
        }),
{
    let b = merge::collected(g);
    let d = merge::without_dead(g);
    let pr = |r: RecordV| !merge::is_dead(g, r.id);
    let po = |o: OccRow| !merge::is_dead(g, o.record_id);
    let pq = |q: RelationRow| !merge::is_dead_relation(g, q);
    let ps = |s: SymbolV| merge::is_used(d, s.id);
    lemma_kept(g.records, pr);
    lemma_kept(g.occurrences, po);
    lemma_kept(g.relations, pq);
    lemma_kept(g.symbols, ps);
    let qr = |r: RecordV| has_link(g, r.id);
    let qo = |o: OccRow| has_link(g, o.record_id);
    let qq = |q: RelationRow| has_linked_occurrence(g, q);
    let qs = |s: SymbolV| is_seen(b, s.id);
    assert forall|i: int| 0 <= i < g.records.len() implies pr(#[trigger] g.records[i]) == qr(
        g.records[i],
    ) by {
        db::lemma_by_id(g.records, i);
        lemma_linked(g, g.records[i].id);
    }
    lemma_filter_same(g.records, pr, qr);
    assert forall|i: int| 0 <= i < g.occurrences.len() implies po(#[trigger] g.occurrences[i])
        == qo(g.occurrences[i]) by {
        assert(db::by_id(g.records, g.occurrences[i].record_id) is Some);
        lemma_linked(g, g.occurrences[i].record_id);
    }
    lemma_filter_same(g.occurrences, po, qo);
    assert forall|i: int| 0 <= i < g.relations.len() implies pq(#[trigger] g.relations[i]) == qq(
        g.relations[i],
    ) by {
        let q = g.relations[i];
        assert(db::by_id(g.occurrences, g.relations[i].occ_id) is Some);
        meaning::law_ids_lead_to_rows(g.occurrences, q.occ_id);
        let o = db::by_id(g.occurrences, q.occ_id).unwrap();
        let k = choose|k: int| 0 <= k < g.occurrences.len() && g.occurrences[k] == o;
        assert(db::by_id(g.records, g.occurrences[k].record_id) is Some);
        lemma_linked(g, o.record_id);
        if qq(q) {
            let x = choose|x: OccRow| #[trigger]
                g.occurrences.contains(x) && x.id == q.occ_id && has_link(g, x.record_id);
            assert(x.rid() == q.occ_id);
        }
    }
    lemma_filter_same(g.relations, pq, qq);
    assert forall|i: int| 0 <= i < g.symbols.len() implies ps(#[trigger] g.symbols[i]) == qs(
        g.symbols[i],
    ) by {
        lemma_seen(d, g.symbols[i].id);
        assert(b.occurrences == d.occurrences && b.relations == d.relations);
    }
    lemma_filter_same(g.symbols, ps, qs);
}

// ---- nothing is made up -------------------------------------------------

/// Whether each file has one of the paths, and no link comes twice.
pub open spec fn is_among(g: GraphV, paths: Set<Seq<char>>) -> bool {
    &&& forall|f: FileV| #[trigger] g.files.contains(f) ==> paths.contains(f.path)
    &&& g.links.no_duplicates()
}

/// The paths that units name: of their main files and of the files of their
/// records.
pub open spec fn is_named_path(units: Seq<UnitDataV>, path: Seq<char>) -> bool {
    exists|u: UnitDataV| #[trigger]
        units.contains(u) && (u.main_file == Some(path) || exists|i: int|
            0 <= i < u.deps.len() && (#[trigger] u.deps[i]).file_path == path)
}

proof fn lemma_file_among(g: GraphV, path: Seq<char>, paths: Set<Seq<char>>)
    requires
        is_among(g, paths),
        paths.contains(path),
        merge::with_file(g, path) is Some,
    ensures
        is_among(merge::with_file(g, path).unwrap().0, paths),
{
    let b = merge::with_file(g, path).unwrap().0;
    assert forall|f: FileV| #[trigger] b.files.contains(f) implies paths.contains(f.path) by {
        let i = choose|i: int| 0 <= i < b.files.len() && b.files[i] == f;
        if i < g.files.len() {
            assert(g.files.contains(g.files[i]));
        }
    }
}

proof fn lemma_link_among(g: GraphV, unit_id: i64, record_id: i64, paths: Set<Seq<char>>)
    requires
        is_among(g, paths),
    ensures
        is_among(merge::with_link(g, unit_id, record_id), paths),
{
    let l = LinkRow { unit_id, record_id };
    let b = merge::with_link(g, unit_id, record_id);
    if !g.links.contains(l) {
        assert forall|i: int, j: int|
            0 <= i < b.links.len() && 0 <= j < b.links.len() && i != j implies b.links[i]
            != b.links[j] by {
            if i < g.links.len() && j < g.links.len() {
                assert(g.links[i] != g.links[j]);
            } else if i < g.links.len() {
                assert(g.links.contains(g.links[i]));
            } else {
                assert(g.links.contains(g.links[j]));
            }
        }
    }
}

proof fn lemma_less_among(g: GraphV, id: i64, paths: Set<Seq<char>>)
    requires
        is_among(g, paths),
    ensures
        is_among(merge::without_unit(g, id), paths),
{
    let p = |l: LinkRow| l.unit_id != id;
    let r = |a: LinkRow, b: LinkRow| a != b;
    let b = merge::without_unit(g, id);
    rows::lemma_keep_pairs(g.links, p, r);
    assert forall|i: int, j: int|
        0 <= i < b.links.len() && 0 <= j < b.links.len() && i != j implies b.links[i]
        != b.links[j] by {
        if i < j {
            assert(r(b.links[i], b.links[j]));
        } else {
            assert(r(b.links[j], b.links[i]));
        }
    }
}

proof fn lemma_deps_among(
    p: Progress,
    unit_id: i64,
    unit: Seq<char>,
    deps: Seq<RecordDepV>,
    read: Seq<RecordDataV>,
    paths: Set<Seq<char>>,
)
    requires
        is_among(p.graph, paths),
        forall|i: int| 0 <= i < deps.len() ==> paths.contains((#[trigger] deps[i]).file_path),
        merge::after_deps(p, unit_id, unit, deps, read) is Ok,
    ensures
        is_among(merge::after_deps(p, unit_id, unit, deps, read)->Ok_0.graph, paths),
    decreases deps.len(),
{
    if deps.len() > 0 {
        let d = deps[0];
        let rest = deps.drop_first();
        let p1 = merge::after_dep(p, unit_id, unit, d, read)->Ok_0;
        match db::by_name(p.graph.records, d.name) {
            Some(r) => {
                lemma_link_among(p.graph, unit_id, r.id, paths);
            },
            None => {
                let data = store::first_named(read, d.name).unwrap();
                lemma_file_among(p.graph, d.file_path, paths);
                let (g1, id) = merge::with_bare_record(p.graph, d.name, d.file_path).unwrap();
                laws::lemma_occurrences_len(g1, id, data.occurrences);
                let g2 = merge::with_occurrences(g1, id, data.occurrences).unwrap();
                merge::lemma_occurrences_keep_links(g1, id, data.occurrences);
                assert(is_among(g2, paths));
                lemma_link_among(g2, unit_id, id, paths);
            },
        }
        assert forall|i: int| 0 <= i < rest.len() implies paths.contains(
            (#[trigger] rest[i]).file_path,
        ) by {
            assert(rest[i] == deps[i + 1]);
        }
        lemma_deps_among(p1, unit_id, unit, rest, read, paths);
    }
}

proof fn lemma_units_among(
    p: Progress,
    list: Seq<StampV>,
    units: Seq<UnitDataV>,
    read: Seq<RecordDataV>,
    missing: Seq<Seq<char>>,
    paths: Set<Seq<char>>,
)
    requires
        is_among(p.graph, paths),
        forall|path: Seq<char>| #[trigger] is_named_path(units, path) ==> paths.contains(path),
        merge::after_units(p, list, units, read, missing) is Ok,
    ensures
        is_among(merge::after_units(p, list, units, read, missing)->Ok_0.graph, paths),
    decreases list.len(),
{
    if list.len() > 0 {
        let s = list[0];
        let data = store::first_named(units, s.name).unwrap();
        mirror::lemma_first_named(units, s.name);
        let g0 = merge::without_named(p.graph, s.name);
        if let Some(u) = db::by_name(p.graph.units, s.name) {
            lemma_less_among(p.graph, u.id, paths);
        }
        if !plan::main_missing(data, missing) {
            if let Some(path) = data.main_file {
                if path.len() > 0 {
                    assert(is_named_path(units, path));
                    lemma_file_among(g0, path, paths);
                }
            }
            let (g1, id) = merge::with_bare_unit(p.graph, s, data).unwrap();
            assert(is_among(g1, paths));
            assert forall|i: int| 0 <= i < data.deps.len() implies paths.contains(
                (#[trigger] data.deps[i]).file_path,
            ) by {
                assert(is_named_path(units, data.deps[i].file_path));
            }
            lemma_deps_among(
                Progress { graph: g1, stats: p.stats },
                id,
                s.name,
                data.deps,
                read,
                paths,
            );
        }
        let p1 = merge::after_unit(p, s, units, read, missing)->Ok_0;
        let p2 = Progress {
            graph: p1.graph,
            stats: MergeStats {
                units_processed: (p1.stats.units_processed + 1) as usize,
                ..p1.stats
            },
        };
        lemma_units_among(p2, list.drop_first(), units, read, missing, paths);
    }
}

proof fn lemma_pruned_among(g: GraphV, ids: Seq<i64>, paths: Set<Seq<char>>)
    requires
        is_among(g, paths),
    ensures
        is_among(merge::without_units(g, ids), paths),
    decreases ids.len(),
{
    if ids.len() > 0 {
        lemma_less_among(g, ids[0], paths);
        lemma_pruned_among(merge::without_unit(g, ids[0]), ids.drop_first(), paths);
    }
}

/// After a merge, each file is one that the graph had or that a unit that was read
/// names, and no unit is linked twice to a record.
pub proof fn law_no_file_is_made_up(g: GraphV, snap: SnapshotV, full: bool)
    requires
        merge::base(g, full).links.no_duplicates(),
        merge::merged(g, snap, full) is Ok,
    ensures
        ({
            let a = merge::base(g, full);
            let b = merge::merged(g, snap, full)->Ok_0.graph;
            &&& forall|f: FileV| #[trigger]
                b.files.contains(f) ==> is_named_path(snap.units, f.path) || exists|e: FileV|
                    #[trigger] a.files.contains(e) && e.path == f.path
            &&& b.links.no_duplicates()
        }),
{
    let a = merge::base(g, full);
    let b = merge::merged(g, snap, full)->Ok_0.graph;
    let paths = Set::new(
        |path: Seq<char>|
            is_named_path(snap.units, path) || exists|e: FileV| #[trigger]
                a.files.contains(e) && e.path == path,
    );
    assert(is_among(a, paths));
    lemma_pruned_among(a, plan::units_to_drop(a, snap.listing, snap.missing_sources), paths);
    lemma_units_among(
        Progress { graph: laws::pruned(a, snap), stats: merge::start_stats(a, snap) },
        plan::units_to_read(a, snap.listing, snap.missing_sources),
        snap.units,
        snap.records,
        snap.missing_sources,
        paths,
    );
    assert forall|f: FileV| #[trigger] b.files.contains(f) implies is_named_path(snap.units, f.path)
        || exists|e: FileV| #[trigger] a.files.contains(e) && e.path == f.path by {
        assert(paths.contains(f.path));
    }
}

} // verus!
