//! What adding rows to the graph keeps.
use vstd::prelude::*;

use crate::db::{self, FileV, GraphV, HasId, HasName, OccRow, RecordV, RelationRow};
use crate::ffi::{OccurrenceV, SymInfoV};
use crate::merge;
use crate::rows;

verus! {

// ---- looking up ---------------------------------------------------------

/// Whether `b` starts with the rows of `a`.
pub open spec fn starts<T>(a: Seq<T>, b: Seq<T>) -> bool {
    a.len() <= b.len() && forall|i: int| 0 <= i < a.len() ==> a[i] == #[trigger] b[i]
}

proof fn lemma_starts_split<T>(a: Seq<T>, b: Seq<T>)
    requires
        starts(a, b),
    ensures
        b == a + b.skip(a.len() as int),
{
    assert(b =~= a + b.skip(a.len() as int));
}

pub proof fn lemma_by_id_starts<T: HasId>(a: Seq<T>, b: Seq<T>, id: i64)
    requires
        starts(a, b),
        db::ascending(b),
        db::by_id(a, id) is Some,
    ensures
        db::by_id(b, id) == db::by_id(a, id),
{
    let i = choose|i: int| db::has_id_at(a, id, i);
    assert(db::has_id_at(a, id, i));
    assert(b[i] == a[i]);
    db::lemma_by_id(b, i);
}

pub proof fn lemma_by_id_found<T: HasId>(s: Seq<T>, id: i64)
    requires
        db::by_id(s, id) is Some,
    ensures
        s.contains(db::by_id(s, id).unwrap()),
        db::by_id(s, id).unwrap().rid() == id,
{
    let i = choose|i: int| db::has_id_at(s, id, i);
    assert(db::has_id_at(s, id, i));
    assert(s[i] == db::by_id(s, id).unwrap());
}

pub proof fn lemma_by_name_found<T: HasName>(s: Seq<T>, name: Seq<char>)
    requires
        db::by_name(s, name) is Some,
    ensures
        s.contains(db::by_name(s, name).unwrap()),
        db::by_name(s, name).unwrap().key() == name,
{
    let i = choose|i: int| db::has_name_at(s, name, i);
    assert(db::has_name_at(s, name, i));
    assert(s[i] == db::by_name(s, name).unwrap());
}

pub proof fn lemma_by_id_member<T: HasId>(s: Seq<T>, x: T)
    requires
        db::ascending(s),
        s.contains(x),
    ensures
        db::by_id(s, x.rid()) == Some(x),
{
    let i = choose|i: int| 0 <= i < s.len() && s[i] == x;
    db::lemma_by_id(s, i);
}

pub proof fn lemma_by_name_member<T: HasName>(s: Seq<T>, x: T)
    requires
        db::names_differ(s),
        s.contains(x),
    ensures
        db::by_name(s, x.key()) == Some(x),
{
    let i = choose|i: int| 0 <= i < s.len() && s[i] == x;
    db::lemma_by_name(s, i);
}

/// A row that is looked up by its id after some rows were dropped.
pub proof fn lemma_by_id_keep<T: HasId>(s: Seq<T>, p: spec_fn(T) -> bool, id: i64)
    requires
        db::ascending(s),
    ensures
        db::by_id(rows::keep(s, p), id) == (match db::by_id(s, id) {
            Some(x) => if p(x) {
                Some(x)
            } else {
                None
            },
            None => None,
        }),
{
    let k = rows::keep(s, p);
    db::lemma_ascending_keep(s, p);
    if db::by_id(k, id) is Some {
        lemma_by_id_found(k, id);
        let x = db::by_id(k, id).unwrap();
        rows::lemma_keep_members(s, p, x);
        lemma_by_id_member(s, x);
    } else if db::by_id(s, id) is Some {
        lemma_by_id_found(s, id);
        let x = db::by_id(s, id).unwrap();
        if p(x) {
            rows::lemma_keep_members(s, p, x);
            lemma_by_id_member(k, x);
        }
    }
}

/// The next id of a table is in use by no row.
pub proof fn lemma_next_id_new<T: HasId>(s: Seq<T>)
    requires
        db::ascending(s),
        merge::next_id(s) is Some,
    ensures
        db::by_id(s, merge::next_id(s).unwrap()) is None,
        s.len() > 0 ==> s.last().rid() < merge::next_id(s).unwrap(),
{
    let id = merge::next_id(s).unwrap();
    assert forall|i: int| !db::has_id_at(s, id, i) by {
        if 0 <= i < s.len() - 1 {
            assert(s[i].rid() < s[s.len() - 1].rid());
        }
    }
}

/// A row that was just added is found by its id.
pub proof fn lemma_by_id_push<T: HasId>(s: Seq<T>, x: T, id: i64)
    requires
        db::ascending(s.push(x)),
    ensures
        db::by_id(s.push(x), id) == (if id == x.rid() {
            Some(x)
        } else {
            db::by_id(s, id)
        }),
{
    let t = s.push(x);
    if id == x.rid() {
        assert(t[s.len() as int] == x);
        db::lemma_by_id(t, s.len() as int);
    } else if db::by_id(s, id) is Some {
        lemma_by_id_starts(s, t, id);
    } else {
        assert forall|i: int| !db::has_id_at(t, id, i) by {
            if 0 <= i < s.len() {
                assert(!db::has_id_at(s, id, i));
                assert(t[i] == s[i]);
            }
        }
    }
}

// ---- no loose ends ------------------------------------------------------

/// Whether every id that a row holds leads to a row.
pub open spec fn closed(g: GraphV) -> bool {
    &&& forall|i: int|
        0 <= i < g.records.len() ==> db::by_id(g.files, (#[trigger] g.records[i]).file_id) is Some
    &&& forall|i: int|
        0 <= i < g.occurrences.len() ==> db::by_id(
            g.records,
            (#[trigger] g.occurrences[i]).record_id,
        ) is Some && db::by_id(g.symbols, g.occurrences[i].symbol_id) is Some
    &&& forall|i: int|
        0 <= i < g.relations.len() ==> db::by_id(
            g.occurrences,
            (#[trigger] g.relations[i]).occ_id,
        ) is Some && db::by_id(g.symbols, g.relations[i].symbol_id) is Some
    &&& forall|i: int|
        0 <= i < g.links.len() ==> db::by_id(g.units, (#[trigger] g.links[i]).unit_id) is Some
            && db::by_id(g.records, g.links[i].record_id) is Some
    &&& forall|i: int|
        0 <= i < g.units.len() ==> ((#[trigger] g.units[i]).main_file_id matches Some(id)
            ==> db::by_id(g.files, id) is Some)
}

/// Whether the graph keeps its keys and has no loose ends.
pub open spec fn sound(g: GraphV) -> bool {
    g.keyed() && closed(g)
}

// ---- growing ------------------------------------------------------------

/// Whether `b` is `a` with rows added: none to the occurrences of a record of
/// `a`, none to the relations of an occurrence of `a`.
pub open spec fn grown(a: GraphV, b: GraphV) -> bool {
    &&& starts(a.files, b.files)
    &&& starts(a.symbols, b.symbols)
    &&& starts(a.records, b.records)
    &&& starts(a.occurrences, b.occurrences)
    &&& starts(a.relations, b.relations)
    &&& forall|i: int|
        a.occurrences.len() <= i < b.occurrences.len() ==> db::by_id(
            a.records,
            (#[trigger] b.occurrences[i]).record_id,
        ) is None
    &&& forall|i: int|
        a.relations.len() <= i < b.relations.len() ==> db::by_id(
            a.occurrences,
            (#[trigger] b.relations[i]).occ_id,
        ) is None
}

pub proof fn lemma_grown_trans(a: GraphV, b: GraphV, c: GraphV)
    requires
        grown(a, b),
        grown(b, c),
    ensures
        grown(a, c),
{
    assert forall|i: int| a.occurrences.len() <= i < c.occurrences.len() implies db::by_id(
        a.records,
        (#[trigger] c.occurrences[i]).record_id,
    ) is None by {
        let id = c.occurrences[i].record_id;
        if i < b.occurrences.len() {
            assert(b.occurrences[i] == c.occurrences[i]);
        } else {
            assert(db::by_id(b.records, id) is None);
            assert forall|j: int| !db::has_id_at(a.records, id, j) by {
                if db::has_id_at(a.records, id, j) {
                    assert(b.records[j] == a.records[j]);
                    assert(db::has_id_at(b.records, id, j));
                }
            }
        }
    }
    assert forall|i: int| a.relations.len() <= i < c.relations.len() implies db::by_id(
        a.occurrences,
        (#[trigger] c.relations[i]).occ_id,
    ) is None by {
        let id = c.relations[i].occ_id;
        if i < b.relations.len() {
            assert(b.relations[i] == c.relations[i]);
        } else {
            assert(db::by_id(b.occurrences, id) is None);
            assert forall|j: int| !db::has_id_at(a.occurrences, id, j) by {
                if db::has_id_at(a.occurrences, id, j) {
                    assert(b.occurrences[j] == a.occurrences[j]);
                    assert(db::has_id_at(b.occurrences, id, j));
                }
            }
        }
    }
    assert forall|i: int| 0 <= i < a.files.len() implies a.files[i] == #[trigger] c.files[i] by {
        assert(b.files[i] == c.files[i]);
    }
    assert forall|i: int| 0 <= i < a.symbols.len() implies a.symbols[i]
        == #[trigger] c.symbols[i] by {
        assert(b.symbols[i] == c.symbols[i]);
    }
    assert forall|i: int| 0 <= i < a.records.len() implies a.records[i]
        == #[trigger] c.records[i] by {
        assert(b.records[i] == c.records[i]);
    }
    assert forall|i: int| 0 <= i < a.occurrences.len() implies a.occurrences[i]
        == #[trigger] c.occurrences[i] by {
        assert(b.occurrences[i] == c.occurrences[i]);
    }
    assert forall|i: int| 0 <= i < a.relations.len() implies a.relations[i]
        == #[trigger] c.relations[i] by {
        assert(b.relations[i] == c.relations[i]);
    }
}

// ---- what records say ---------------------------------------------------

/// An occurrence, with symbols by their USRs.
pub struct Fact {
    pub usr: Seq<char>,
    pub roles: i64,
    pub line: i64,
    pub col: i64,
    pub relations: Seq<(i64, Seq<char>)>,
}

/// The USR of the symbol with the id.
pub open spec fn usr_of(g: GraphV, id: i64) -> Seq<char> {
    match db::by_id(g.symbols, id) {
        Some(s) => s.usr,
        None => Seq::empty(),
    }
}

/// What a relation adds to the relations of an occurrence.
pub open spec fn pick_relation(g: GraphV, occ_id: i64) -> spec_fn(RelationRow) -> Seq<
    (i64, Seq<char>),
> {
    |r: RelationRow|
        if r.occ_id == occ_id {
            seq![(r.roles, usr_of(g, r.symbol_id))]
        } else {
            Seq::empty()
        }
}

/// The relations of an occurrence.
pub open spec fn relation_facts(g: GraphV, occ_id: i64) -> Seq<(i64, Seq<char>)> {
    rows::gather(g.relations, pick_relation(g, occ_id))
}

/// An occurrence, with symbols by their USRs.
pub open spec fn fact(g: GraphV, o: OccRow) -> Fact {
    Fact {
        usr: usr_of(g, o.symbol_id),
        roles: o.roles,
        line: o.line,
        col: o.col,
        relations: relation_facts(g, o.id),
    }
}

/// What an occurrence adds to what a record says.
pub open spec fn pick_fact(g: GraphV, record_id: i64) -> spec_fn(OccRow) -> Seq<Fact> {
    |o: OccRow|
        if o.record_id == record_id {
            seq![fact(g, o)]
        } else {
            Seq::empty()
        }
}

/// What a record of the graph says.
pub open spec fn facts(g: GraphV, record_id: i64) -> Seq<Fact> {
    rows::gather(g.occurrences, pick_fact(g, record_id))
}

/// What relations of the store say.
pub open spec fn relations_said(rels: Seq<(u64, SymInfoV)>) -> Seq<(i64, Seq<char>)> {
    rels.map_values(|r: (u64, SymInfoV)| (r.0 as i64, r.1.usr))
}

/// What an occurrence of the store says.
pub open spec fn fact_said(o: OccurrenceV) -> Fact {
    Fact {
        usr: o.symbol.usr,
        roles: o.roles as i64,
        line: o.line as i64,
        col: o.col as i64,
        relations: relations_said(o.relations),
    }
}

/// What a record of the store says.
pub open spec fn facts_said(occs: Seq<OccurrenceV>) -> Seq<Fact> {
    occs.map_values(|o: OccurrenceV| fact_said(o))
}

proof fn lemma_usr_grown(a: GraphV, b: GraphV, id: i64)
    requires
        starts(a.symbols, b.symbols),
        db::ascending(b.symbols),
        db::by_id(a.symbols, id) is Some,
    ensures
        usr_of(b, id) == usr_of(a, id),
{
    lemma_by_id_starts(a.symbols, b.symbols, id);
}

/// A grown graph has the same relations of the occurrences that it had.
pub proof fn lemma_relation_facts_grown(a: GraphV, b: GraphV, occ_id: i64)
    requires
        grown(a, b),
        closed(a),
        db::ascending(b.symbols),
        db::by_id(a.occurrences, occ_id) is Some,
    ensures
        relation_facts(b, occ_id) == relation_facts(a, occ_id),
{
    let n = a.relations.len() as int;
    let added = b.relations.skip(n);
    lemma_starts_split(a.relations, b.relations);
    let f = pick_relation(a, occ_id);
    let h = pick_relation(b, occ_id);
    rows::lemma_gather_concat(a.relations, added, h);
    assert forall|i: int| 0 <= i < a.relations.len() implies h(#[trigger] a.relations[i]) == f(
        a.relations[i],
    ) by {
        lemma_usr_grown(a, b, a.relations[i].symbol_id);
    }
    rows::lemma_gather_same(a.relations, h, f);
    assert forall|i: int| 0 <= i < added.len() implies h(#[trigger] added[i]) == Seq::<
        (i64, Seq<char>),
    >::empty() by {
        assert(added[i] == b.relations[n + i]);
    }
    rows::lemma_gather_nothing(added, h);
    assert(relation_facts(b, occ_id) =~= relation_facts(a, occ_id));
}

/// A grown graph says the same of the records that it had.
pub proof fn lemma_facts_grown(a: GraphV, b: GraphV, record_id: i64)
    requires
        grown(a, b),
        sound(a),
        db::ascending(b.symbols),
        db::by_id(a.records, record_id) is Some,
    ensures
        facts(b, record_id) == facts(a, record_id),
{
    let n = a.occurrences.len() as int;
    let added = b.occurrences.skip(n);
    lemma_starts_split(a.occurrences, b.occurrences);
    let f = pick_fact(a, record_id);
    let h = pick_fact(b, record_id);
    rows::lemma_gather_concat(a.occurrences, added, h);
    assert forall|i: int| 0 <= i < a.occurrences.len() implies h(#[trigger] a.occurrences[i])
        == f(a.occurrences[i]) by {
        let o = a.occurrences[i];
        db::lemma_by_id(a.occurrences, i);
        lemma_usr_grown(a, b, o.symbol_id);
        lemma_relation_facts_grown(a, b, o.id);
    }
    rows::lemma_gather_same(a.occurrences, h, f);
    assert forall|i: int| 0 <= i < added.len() implies h(#[trigger] added[i]) == Seq::<
        Fact,
    >::empty() by {
        assert(added[i] == b.occurrences[n + i]);
    }
    rows::lemma_gather_nothing(added, h);
    assert(facts(b, record_id) =~= facts(a, record_id));
}

// ---- no idle symbols ----------------------------------------------------

/// Whether every symbol occurs or is related to an occurrence.
#[verifier::opaque]
pub open spec fn all_used(g: GraphV) -> bool {
    forall|i: int| 0 <= i < g.symbols.len() ==> merge::is_used(g, (#[trigger] g.symbols[i]).id)
}

/// A symbol stays in use when rows are added.
proof fn lemma_is_used_extended(a: GraphV, b: GraphV, id: i64)
    requires
        starts(a.occurrences, b.occurrences),
        starts(a.relations, b.relations),
        merge::is_used(a, id),
    ensures
        merge::is_used(b, id),
{
    if exists|i: int| 0 <= i < a.occurrences.len() && (#[trigger] a.occurrences[i]).symbol_id == id {
        let i = choose|i: int|
            0 <= i < a.occurrences.len() && (#[trigger] a.occurrences[i]).symbol_id == id;
        assert(b.occurrences[i].symbol_id == id);
    } else {
        let i = choose|i: int|
            0 <= i < a.relations.len() && (#[trigger] a.relations[i]).symbol_id == id;
        assert(b.relations[i].symbol_id == id);
    }
}

/// The symbols are in use after rows were added, where those that were added
/// are.
proof fn lemma_all_used_extended(a: GraphV, b: GraphV)
    requires
        all_used(a),
        starts(a.symbols, b.symbols),
        starts(a.occurrences, b.occurrences),
        starts(a.relations, b.relations),
        forall|i: int|
            a.symbols.len() <= i < b.symbols.len() ==> merge::is_used(
                b,
                (#[trigger] b.symbols[i]).id,
            ),
    ensures
        all_used(b),
{
    reveal(all_used);
    assert forall|i: int| 0 <= i < b.symbols.len() implies merge::is_used(
        b,
        (#[trigger] b.symbols[i]).id,
    ) by {
        if i < a.symbols.len() {
            assert(a.symbols[i] == b.symbols[i]);
            lemma_is_used_extended(a, b, b.symbols[i].id);
        }
    }
}

/// Whether the symbols are in use does not depend on files, records, units and
/// links.
pub proof fn lemma_all_used_same(a: GraphV, b: GraphV)
    requires
        all_used(a),
        b.symbols == a.symbols,
        b.occurrences == a.occurrences,
        b.relations == a.relations,
    ensures
        all_used(b),
{
    lemma_all_used_extended(a, b);
}

// ---- the steps of a merge -----------------------------------------------

/// Whether `b` has the rows of `a` at the start of each table.
pub open spec fn extended(a: GraphV, b: GraphV) -> bool {
    &&& starts(a.files, b.files)
    &&& starts(a.symbols, b.symbols)
    &&& starts(a.records, b.records)
    &&& starts(a.occurrences, b.occurrences)
    &&& starts(a.relations, b.relations)
    &&& starts(a.units, b.units)
    &&& starts(a.links, b.links)
}

/// A graph without loose ends has none after rows without loose ends were
/// added.
pub proof fn lemma_closed_extended(a: GraphV, b: GraphV)
    requires
        sound(a),
        b.keyed(),
        extended(a, b),
        forall|i: int|
            a.records.len() <= i < b.records.len() ==> db::by_id(
                b.files,
                (#[trigger] b.records[i]).file_id,
            ) is Some,
        forall|i: int|
            a.occurrences.len() <= i < b.occurrences.len() ==> db::by_id(
                b.records,
                (#[trigger] b.occurrences[i]).record_id,
            ) is Some && db::by_id(b.symbols, b.occurrences[i].symbol_id) is Some,
        forall|i: int|
            a.relations.len() <= i < b.relations.len() ==> db::by_id(
                b.occurrences,
                (#[trigger] b.relations[i]).occ_id,
            ) is Some && db::by_id(b.symbols, b.relations[i].symbol_id) is Some,
        forall|i: int|
            a.links.len() <= i < b.links.len() ==> db::by_id(
                b.units,
                (#[trigger] b.links[i]).unit_id,
            ) is Some && db::by_id(b.records, b.links[i].record_id) is Some,
        forall|i: int|
            a.units.len() <= i < b.units.len() ==> ((#[trigger] b.units[i]).main_file_id matches Some(
                id,
            ) ==> db::by_id(b.files, id) is Some),
    ensures
        sound(b),
{
    assert forall|i: int| 0 <= i < b.records.len() implies db::by_id(
        b.files,
        (#[trigger] b.records[i]).file_id,
    ) is Some by {
        if i < a.records.len() {
            assert(a.records[i] == b.records[i]);
            lemma_by_id_starts(a.files, b.files, a.records[i].file_id);
        }
    }
    assert forall|i: int| 0 <= i < b.occurrences.len() implies db::by_id(
        b.records,
        (#[trigger] b.occurrences[i]).record_id,
    ) is Some && db::by_id(b.symbols, b.occurrences[i].symbol_id) is Some by {
        if i < a.occurrences.len() {
            assert(a.occurrences[i] == b.occurrences[i]);
            lemma_by_id_starts(a.records, b.records, a.occurrences[i].record_id);
            lemma_by_id_starts(a.symbols, b.symbols, a.occurrences[i].symbol_id);
        }
    }
    assert forall|i: int| 0 <= i < b.relations.len() implies db::by_id(
        b.occurrences,
        (#[trigger] b.relations[i]).occ_id,
    ) is Some && db::by_id(b.symbols, b.relations[i].symbol_id) is Some by {
        if i < a.relations.len() {
            assert(a.relations[i] == b.relations[i]);
            lemma_by_id_starts(a.occurrences, b.occurrences, a.relations[i].occ_id);
            lemma_by_id_starts(a.symbols, b.symbols, a.relations[i].symbol_id);
        }
    }
    assert forall|i: int| 0 <= i < b.links.len() implies db::by_id(
        b.units,
        (#[trigger] b.links[i]).unit_id,
    ) is Some && db::by_id(b.records, b.links[i].record_id) is Some by {
        if i < a.links.len() {
            assert(a.links[i] == b.links[i]);
            lemma_by_id_starts(a.units, b.units, a.links[i].unit_id);
            lemma_by_id_starts(a.records, b.records, a.links[i].record_id);
        }
    }
    assert forall|i: int| 0 <= i < b.units.len() implies (
    (#[trigger] b.units[i]).main_file_id matches Some(id) ==> db::by_id(b.files, id) is Some) by {
        if i < a.units.len() {
            assert(a.units[i] == b.units[i]);
            if let Some(id) = a.units[i].main_file_id {
                lemma_by_id_starts(a.files, b.files, id);
            }
        }
    }
}

/// Adding a file.
pub proof fn lemma_with_file(g: GraphV, path: Seq<char>)
    requires
        sound(g),
        merge::with_file(g, path) is Some,
    ensures
        ({
            let (b, id) = merge::with_file(g, path).unwrap();
            &&& sound(b)
            &&& extended(g, b)
            &&& grown(g, b)
            &&& b == (GraphV { files: b.files, ..g })
            &&& db::by_id(b.files, id) == Some(FileV { id, path })
        }),
{
    let (b, id) = merge::with_file(g, path).unwrap();
    match db::by_name(g.files, path) {
        Some(f) => {
            lemma_by_name_found(g.files, path);
            lemma_by_id_member(g.files, f);
        },
        None => {
            let x = FileV { id, path };
            lemma_next_id_new(g.files);
            db::lemma_ascending_push(g.files, x);
            db::lemma_names_push(g.files, x);
            lemma_by_id_push(g.files, x, id);
            lemma_closed_extended(g, b);
        },
    }
}

/// Adding a symbol.
pub proof fn lemma_with_symbol(g: GraphV, s: SymInfoV)
    requires
        sound(g),
        merge::with_symbol(g, s) is Some,
    ensures
        ({
            let (b, id) = merge::with_symbol(g, s).unwrap();
            &&& sound(b)
            &&& extended(g, b)
            &&& grown(g, b)
            &&& b == (GraphV { symbols: b.symbols, ..g })
            &&& db::by_id(b.symbols, id) is Some
            &&& usr_of(b, id) == s.usr
            &&& forall|i: int|
                g.symbols.len() <= i < b.symbols.len() ==> (#[trigger] b.symbols[i]).id == id
        }),
{
    let (b, id) = merge::with_symbol(g, s).unwrap();
    match db::by_name(g.symbols, s.usr) {
        Some(row) => {
            lemma_by_name_found(g.symbols, s.usr);
            lemma_by_id_member(g.symbols, row);
        },
        None => {
            let x = b.symbols.last();
            lemma_next_id_new(g.symbols);
            db::lemma_ascending_push(g.symbols, x);
            db::lemma_names_push(g.symbols, x);
            lemma_by_id_push(g.symbols, x, id);
            lemma_closed_extended(g, b);
        },
    }
}

/// Relations of other occurrences leave those of an occurrence.
proof fn lemma_relation_facts_others(a: GraphV, b: GraphV, occ_id: i64)
    requires
        closed(a),
        starts(a.symbols, b.symbols),
        db::ascending(b.symbols),
        starts(a.relations, b.relations),
        forall|i: int|
            a.relations.len() <= i < b.relations.len() ==> (#[trigger] b.relations[i]).occ_id
                != occ_id,
    ensures
        relation_facts(b, occ_id) == relation_facts(a, occ_id),
{
    let n = a.relations.len() as int;
    let added = b.relations.skip(n);
    lemma_starts_split(a.relations, b.relations);
    let f = pick_relation(a, occ_id);
    let h = pick_relation(b, occ_id);
    rows::lemma_gather_concat(a.relations, added, h);
    assert forall|i: int| 0 <= i < a.relations.len() implies h(#[trigger] a.relations[i]) == f(
        a.relations[i],
    ) by {
        lemma_usr_grown(a, b, a.relations[i].symbol_id);
    }
    rows::lemma_gather_same(a.relations, h, f);
    assert forall|i: int| 0 <= i < added.len() implies h(#[trigger] added[i]) == Seq::<
        (i64, Seq<char>),
    >::empty() by {
        assert(added[i] == b.relations[n + i]);
    }
    rows::lemma_gather_nothing(added, h);
    assert(relation_facts(b, occ_id) =~= relation_facts(a, occ_id));
}

/// Adding a relation of an occurrence.
proof fn lemma_with_relation(g: GraphV, occ_id: i64, roles: u64, s: SymInfoV)
    requires
        sound(g),
        db::by_id(g.occurrences, occ_id) is Some,
        merge::with_relation(g, occ_id, roles, s) is Some,
    ensures
        ({
            let b = merge::with_relation(g, occ_id, roles, s).unwrap();
            &&& sound(b)
            &&& extended(g, b)
            &&& b == (GraphV { symbols: b.symbols, relations: b.relations, ..g })
            &&& b.relations.len() == g.relations.len() + 1
            &&& b.relations.last().occ_id == occ_id
            &&& relation_facts(b, occ_id) == relation_facts(g, occ_id).push(
                (roles as i64, s.usr),
            )
            &&& all_used(g) ==> all_used(b)
        }),
{
    lemma_with_symbol(g, s);
    let (g1, id) = merge::with_symbol(g, s).unwrap();
    let b = merge::with_relation(g, occ_id, roles, s).unwrap();
    let x = RelationRow { occ_id, roles: roles as i64, symbol_id: id };
    assert(b.relations == g1.relations.push(x));
    lemma_closed_extended(g1, b);
    assert(extended(g, b));
    lemma_relation_facts_others(g, g1, occ_id);
    let h = pick_relation(b, occ_id);
    rows::lemma_gather_concat(g1.relations, seq![x], h);
    assert(g1.relations.push(x) =~= g1.relations + seq![x]);
    assert forall|i: int| 0 <= i < g1.relations.len() implies h(#[trigger] g1.relations[i])
        == pick_relation(g1, occ_id)(g1.relations[i]) by {
        lemma_usr_grown(g1, b, g1.relations[i].symbol_id);
    }
    rows::lemma_gather_same(g1.relations, h, pick_relation(g1, occ_id));
    assert(rows::gather(seq![x], h) =~= seq![(roles as i64, s.usr)]) by {
        assert(seq![x].drop_first() =~= Seq::<RelationRow>::empty());
        assert(rows::gather(Seq::<RelationRow>::empty(), h) =~= Seq::empty());
        assert(h(x) == seq![(roles as i64, s.usr)]);
    }
    assert(relation_facts(b, occ_id) =~= relation_facts(g, occ_id).push((roles as i64, s.usr)));
    if all_used(g) {
        assert(b.relations[g.relations.len() as int].symbol_id == id);
        lemma_all_used_extended(g, b);
    }
}

/// Adding relations of an occurrence.
proof fn lemma_with_relations(g: GraphV, occ_id: i64, rels: Seq<(u64, SymInfoV)>)
    requires
        sound(g),
        db::by_id(g.occurrences, occ_id) is Some,
        merge::with_relations(g, occ_id, rels) is Some,
    ensures
        ({
            let b = merge::with_relations(g, occ_id, rels).unwrap();
            &&& sound(b)
            &&& extended(g, b)
            &&& b == (GraphV { symbols: b.symbols, relations: b.relations, ..g })
            &&& forall|i: int|
                g.relations.len() <= i < b.relations.len() ==> (#[trigger] b.relations[i]).occ_id
                    == occ_id
            &&& relation_facts(b, occ_id) == relation_facts(g, occ_id) + relations_said(rels)
            &&& all_used(g) ==> all_used(b)
        }),
    decreases rels.len(),
{
    let b = merge::with_relations(g, occ_id, rels).unwrap();
    if rels.len() == 0 {
        assert(relation_facts(g, occ_id) + relations_said(rels) =~= relation_facts(g, occ_id));
    } else {
        lemma_with_relation(g, occ_id, rels[0].0, rels[0].1);
        let g1 = merge::with_relation(g, occ_id, rels[0].0, rels[0].1).unwrap();
        let rest = rels.drop_first();
        lemma_with_relations(g1, occ_id, rest);
        assert(relations_said(rels) =~= seq![(rels[0].0 as i64, rels[0].1.usr)]
            + relations_said(rest));
        assert(relation_facts(b, occ_id) =~= relation_facts(g, occ_id) + relations_said(rels));
        assert forall|i: int| g.relations.len() <= i < b.relations.len() implies (
        #[trigger] b.relations[i]).occ_id == occ_id by {
            if i < g1.relations.len() {
                assert(g1.relations[i] == b.relations[i]);
                assert(i == g1.relations.len() - 1);
            }
        }
        assert forall|i: int| 0 <= i < g.relations.len() implies g.relations[i]
            == #[trigger] b.relations[i] by {
            assert(g1.relations[i] == b.relations[i]);
        }
        assert forall|i: int| 0 <= i < g.symbols.len() implies g.symbols[i]
            == #[trigger] b.symbols[i] by {
            assert(g1.symbols[i] == b.symbols[i]);
        }
    }
}

/// What adding occurrences to a record leaves and makes.
pub open spec fn occurrences_added(
    a: GraphV,
    b: GraphV,
    record_id: i64,
    occs: Seq<OccurrenceV>,
) -> bool {
    &&& sound(b)
    &&& extended(a, b)
    &&& b == (GraphV {
        symbols: b.symbols,
        occurrences: b.occurrences,
        relations: b.relations,
        ..a
    })
    &&& forall|i: int|
        a.occurrences.len() <= i < b.occurrences.len() ==> (#[trigger] b.occurrences[i]).record_id
            == record_id
    &&& forall|i: int|
        a.relations.len() <= i < b.relations.len() ==> db::by_id(
            a.occurrences,
            (#[trigger] b.relations[i]).occ_id,
        ) is None
    &&& facts(b, record_id) == facts(a, record_id) + facts_said(occs)
    &&& all_used(a) ==> all_used(b)
}

/// Adding an occurrence of a record.
proof fn lemma_with_occurrence(g: GraphV, record_id: i64, o: OccurrenceV)
    requires
        sound(g),
        db::by_id(g.records, record_id) is Some,
        merge::with_occurrence(g, record_id, o) is Some,
    ensures
        occurrences_added(
            g,
            merge::with_occurrence(g, record_id, o).unwrap(),
            record_id,
            seq![o],
        ),
{
    let b = merge::with_occurrence(g, record_id, o).unwrap();
    lemma_with_symbol(g, o.symbol);
    let (g1, symbol_id) = merge::with_symbol(g, o.symbol).unwrap();
    let (g2, id) = merge::with_bare_occurrence(g, record_id, o).unwrap();
    let x = g2.occurrences.last();
    lemma_next_id_new(g1.occurrences);
    db::lemma_ascending_push(g1.occurrences, x);
    lemma_by_id_push(g1.occurrences, x, id);
    lemma_closed_extended(g1, g2);
    if all_used(g) {
        assert(g2.occurrences[g.occurrences.len() as int].symbol_id == symbol_id);
        lemma_all_used_extended(g, g2);
    }
    lemma_with_relations(g2, id, o.relations);
    assert(g2.relations == g.relations);
    assert(b.occurrences == g.occurrences.push(x));
    // What is said of the occurrences that were there.
    let f = pick_fact(g, record_id);
    let h = pick_fact(b, record_id);
    assert forall|i: int| 0 <= i < g.occurrences.len() implies h(#[trigger] g.occurrences[i])
        == f(g.occurrences[i]) by {
        let e = g.occurrences[i];
        db::lemma_by_id(g.occurrences, i);
        lemma_usr_grown(g, b, e.symbol_id);
        assert(e.id != id);
        lemma_relation_facts_others(g, b, e.id);
    }
    rows::lemma_gather_same(g.occurrences, h, f);
    rows::lemma_gather_concat(g.occurrences, seq![x], h);
    assert(g.occurrences.push(x) =~= g.occurrences + seq![x]);
    // What is said of the new one.
    assert(relation_facts(g2, id) == Seq::<(i64, Seq<char>)>::empty()) by {
        let k = pick_relation(g2, id);
        assert forall|i: int| 0 <= i < g2.relations.len() implies k(#[trigger] g2.relations[i])
            == Seq::<(i64, Seq<char>)>::empty() by {
            assert(g2.relations[i] == g.relations[i]);
            assert(db::by_id(g.occurrences, g.relations[i].occ_id) is Some);
        }
        rows::lemma_gather_nothing(g2.relations, k);
    }
    assert(relation_facts(b, id) =~= relations_said(o.relations));
    lemma_usr_grown(g2, b, symbol_id);
    assert(usr_of(g2, symbol_id) == usr_of(g1, symbol_id));
    assert(fact(b, x) == fact_said(o));
    assert(rows::gather(seq![x], h) =~= seq![fact_said(o)]) by {
        assert(seq![x].drop_first() =~= Seq::<OccRow>::empty());
        assert(rows::gather(Seq::<OccRow>::empty(), h) =~= Seq::empty());
        assert(h(x) == seq![fact(b, x)]);
    }
    assert(facts_said(seq![o]) =~= seq![fact_said(o)]);
    assert(facts(b, record_id) =~= facts(g, record_id) + facts_said(seq![o]));
    assert forall|i: int| g.relations.len() <= i < b.relations.len() implies db::by_id(
        g.occurrences,
        (#[trigger] b.relations[i]).occ_id,
    ) is None by {
        assert(b.relations[i].occ_id == id);
    }
    assert forall|i: int| 0 <= i < g.symbols.len() implies g.symbols[i]
        == #[trigger] b.symbols[i] by {
        assert(g2.symbols[i] == b.symbols[i]);
    }
}

/// Adding occurrences of a record.
proof fn lemma_with_occurrences(g: GraphV, record_id: i64, occs: Seq<OccurrenceV>)
    requires
        sound(g),
        db::by_id(g.records, record_id) is Some,
        merge::with_occurrences(g, record_id, occs) is Some,
    ensures
        occurrences_added(
            g,
            merge::with_occurrences(g, record_id, occs).unwrap(),
            record_id,
            occs,
        ),
    decreases occs.len(),
{
    let b = merge::with_occurrences(g, record_id, occs).unwrap();
    if occs.len() == 0 {
        assert(facts(g, record_id) + facts_said(occs) =~= facts(g, record_id));
    } else {
        lemma_with_occurrence(g, record_id, occs[0]);
        let g1 = merge::with_occurrence(g, record_id, occs[0]).unwrap();
        let rest = occs.drop_first();
        lemma_with_occurrences(g1, record_id, rest);
        assert(facts_said(occs) =~= facts_said(seq![occs[0]]) + facts_said(rest));
        assert(facts(b, record_id) =~= facts(g, record_id) + facts_said(occs));
        assert forall|i: int| 0 <= i < g.occurrences.len() implies g.occurrences[i]
            == #[trigger] b.occurrences[i] by {
            assert(g1.occurrences[i] == b.occurrences[i]);
        }
        assert forall|i: int| 0 <= i < g.relations.len() implies g.relations[i]
            == #[trigger] b.relations[i] by {
            assert(g1.relations[i] == b.relations[i]);
        }
        assert forall|i: int| 0 <= i < g.symbols.len() implies g.symbols[i]
            == #[trigger] b.symbols[i] by {
            assert(g1.symbols[i] == b.symbols[i]);
        }
        assert forall|i: int| g.occurrences.len() <= i < b.occurrences.len() implies (
        #[trigger] b.occurrences[i]).record_id == record_id by {
            if i < g1.occurrences.len() {
                assert(g1.occurrences[i] == b.occurrences[i]);
            }
        }
        assert forall|i: int| g.relations.len() <= i < b.relations.len() implies db::by_id(
            g.occurrences,
            (#[trigger] b.relations[i]).occ_id,
        ) is None by {
            if i < g1.relations.len() {
                assert(g1.relations[i] == b.relations[i]);
            } else {
                let id = b.relations[i].occ_id;
                if db::by_id(g.occurrences, id) is Some {
                    lemma_by_id_starts(g.occurrences, g1.occurrences, id);
                }
            }
        }
    }
}

/// Adding a record.
pub proof fn lemma_with_record(
    g: GraphV,
    name: Seq<char>,
    path: Seq<char>,
    occs: Seq<OccurrenceV>,
)
    requires
        sound(g),
        db::by_name(g.records, name) is None,
        merge::with_record(g, name, path, occs) is Some,
    ensures
        ({
            let (b, id) = merge::with_record(g, name, path, occs).unwrap();
            &&& sound(b)
            &&& extended(g, b)
            &&& grown(g, b)
            &&& b.units == g.units
            &&& b.links == g.links
            &&& b.records == g.records.push(b.records.last())
            &&& b.records.last().id == id
            &&& b.records.last().name == name
            &&& db::by_id(b.files, b.records.last().file_id) == Some(
                FileV { id: b.records.last().file_id, path },
            )
            &&& facts(b, id) == facts_said(occs)
            &&& all_used(g) ==> all_used(b)
        }),
{
    let (b, id) = merge::with_record(g, name, path, occs).unwrap();
    lemma_with_file(g, path);
    let (g1, file_id) = merge::with_file(g, path).unwrap();
    let (g2, _id) = merge::with_bare_record(g, name, path).unwrap();
    let x = RecordV { id, name, file_id };
    lemma_next_id_new(g1.records);
    db::lemma_ascending_push(g1.records, x);
    db::lemma_names_push(g1.records, x);
    lemma_by_id_push(g1.records, x, id);
    lemma_closed_extended(g1, g2);
    if all_used(g) {
        lemma_all_used_extended(g, g2);
    }
    lemma_with_occurrences(g2, id, occs);
    assert(b.records == g.records.push(x));
    assert(facts(g2, id) == Seq::<Fact>::empty()) by {
        let h = pick_fact(g2, id);
        assert forall|i: int| 0 <= i < g2.occurrences.len() implies h(#[trigger] g2.occurrences[i])
            == Seq::<Fact>::empty() by {
            assert(g2.occurrences[i] == g.occurrences[i]);
            assert(db::by_id(g.records, g.occurrences[i].record_id) is Some);
        }
        rows::lemma_gather_nothing(g2.occurrences, h);
    }
    assert(facts(b, id) =~= facts_said(occs));
    assert(g2.occurrences == g.occurrences);
    assert(g2.relations == g.relations);
}

} // verus!
