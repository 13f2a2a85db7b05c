//! What answers tell, in terms of the rows of the tables.
use vstd::prelude::*;

use crate::answers;
use crate::db::{self, FileV, GraphV, HasId, OccRow, RecordV, RelationRow, SymbolV};
use crate::growth;
use crate::naming;
use crate::query::{self, NameV, OutlineV, PlaceV, RefV, RelatedV, Side, SymV};
use crate::rows;

verus! {

// ---- rows of tables -----------------------------------------------------

/// Looking a row up by its id.
pub proof fn law_ids_lead_to_rows<T: HasId>(s: Seq<T>, id: i64)
    requires
        db::ascending(s),
    ensures
        match db::by_id(s, id) {
            Some(x) => s.contains(x) && x.rid() == id && forall|y: T| #[trigger]
                s.contains(y) && y.rid() == id ==> y == x,
            None => forall|y: T| #[trigger] s.contains(y) ==> y.rid() != id,
        },
{
    assert forall|y: T| #[trigger] s.contains(y) && y.rid() == id implies db::by_id(s, id) == Some(
        y,
    ) by {
        growth::lemma_by_id_member(s, y);
    }
    if db::by_id(s, id) is Some {
        growth::lemma_by_id_found(s, id);
    }
}

/// Whether the occurrence is in a file of the path.
pub open spec fn in_path(g: GraphV, o: OccRow, path: Seq<char>) -> bool {
    exists|r: RecordV, f: FileV| #[trigger]
        g.records.contains(r) && #[trigger] g.files.contains(f) && r.id == o.record_id && f.id
            == r.file_id && f.path == path
}

proof fn lemma_path(g: GraphV, o: OccRow, path: Seq<char>)
    requires
        g.keyed(),
    ensures
        query::path_of(g, o) == Some(path) <==> in_path(g, o, path),
{
    law_ids_lead_to_rows(g.records, o.record_id);
    if in_path(g, o, path) {
        let (r, f) = choose|r: RecordV, f: FileV| #[trigger]
            g.records.contains(r) && #[trigger] g.files.contains(f) && r.id == o.record_id && f.id
                == r.file_id && f.path == path;
        assert(g.records.contains(r) && r.rid() == o.record_id);
        law_ids_lead_to_rows(g.files, r.file_id);
        assert(g.files.contains(f) && f.rid() == r.file_id);
    }
    if let Some(p) = query::path_of(g, o) {
        let r = db::by_id(g.records, o.record_id).unwrap();
        law_ids_lead_to_rows(g.files, r.file_id);
        let f = db::by_id(g.files, r.file_id).unwrap();
        assert(g.records.contains(r) && g.files.contains(f));
    }
}

/// Whether the row is an occurrence of the symbol.
pub open spec fn is_ref(g: GraphV, sym: i64, x: RefV) -> bool {
    exists|o: OccRow| #[trigger]
        g.occurrences.contains(o) && o.symbol_id == sym && in_path(g, o, x.path) && x.line == o.line
            && x.col == o.col && x.roles == o.roles
}

pub proof fn lemma_refs(g: GraphV, sym: i64, x: RefV)
    requires
        g.keyed(),
    ensures
        rows::gather(g.occurrences, query::pick_ref(g, sym)).contains(x) <==> is_ref(g, sym, x),
{
    let f = query::pick_ref(g, sym);
    rows::lemma_gather_members(g.occurrences, f, x);
    if rows::gather(g.occurrences, f).contains(x) {
        let i = choose|i: int| 0 <= i < g.occurrences.len() && f(#[trigger] g.occurrences[i]).contains(x);
        lemma_path(g, g.occurrences[i], x.path);
        assert(g.occurrences.contains(g.occurrences[i]));
    }
    if is_ref(g, sym, x) {
        let o = choose|o: OccRow| #[trigger]
            g.occurrences.contains(o) && o.symbol_id == sym && in_path(g, o, x.path) && x.line
                == o.line && x.col == o.col && x.roles == o.roles;
        lemma_path(g, o, x.path);
        let i = choose|i: int| 0 <= i < g.occurrences.len() && g.occurrences[i] == o;
        assert(f(g.occurrences[i])[0] == x);
        assert(f(g.occurrences[i]).contains(x));
    }
}

/// Whether the symbol is defined at the place.
pub open spec fn is_defined_at(g: GraphV, sym: i64, x: PlaceV) -> bool {
    exists|o: OccRow| #[trigger]
        g.occurrences.contains(o) && o.symbol_id == sym && naming::has_bit(o.roles, 0x2) && in_path(
            g,
            o,
            x.path,
        ) && x.line == o.line
}

pub proof fn lemma_definitions(g: GraphV, sym: i64, x: PlaceV)
    requires
        g.keyed(),
    ensures
        rows::gather(g.occurrences, query::pick_definition(g, sym)).contains(x) <==> is_defined_at(
            g,
            sym,
            x,
        ),
{
    let f = query::pick_definition(g, sym);
    naming::law_roles_have_their_bits();
    rows::lemma_gather_members(g.occurrences, f, x);
    if rows::gather(g.occurrences, f).contains(x) {
        let i = choose|i: int| 0 <= i < g.occurrences.len() && f(#[trigger] g.occurrences[i]).contains(x);
        lemma_path(g, g.occurrences[i], x.path);
        assert(g.occurrences.contains(g.occurrences[i]));
    }
    if is_defined_at(g, sym, x) {
        let o = choose|o: OccRow| #[trigger]
            g.occurrences.contains(o) && o.symbol_id == sym && naming::has_bit(o.roles, 0x2)
                && in_path(g, o, x.path) && x.line == o.line;
        lemma_path(g, o, x.path);
        let i = choose|i: int| 0 <= i < g.occurrences.len() && g.occurrences[i] == o;
        assert(f(g.occurrences[i])[0] == x);
        assert(f(g.occurrences[i]).contains(x));
    }
}

/// Whether the relation, with one of the bits, is between the symbol that occurs
/// and the symbol that the occurrence is related to.
pub open spec fn relates(
    g: GraphV,
    q: RelationRow,
    o: OccRow,
    bits: u64,
    occurring: i64,
    related: i64,
) -> bool {
    &&& g.relations.contains(q)
    &&& g.occurrences.contains(o)
    &&& q.occ_id == o.id
    &&& naming::has_bit(q.roles, bits)
    &&& o.symbol_id == occurring
    &&& q.symbol_id == related
}

/// Whether the row is a symbol that an occurrence of `sym` is inside of.
pub open spec fn is_caller(g: GraphV, sym: i64, x: RelatedV) -> bool {
    exists|q: RelationRow, o: OccRow, s: SymbolV|
        #[trigger] relates(g, q, o, 0x12000, sym, s.id) && #[trigger] g.symbols.contains(s)
            && is_row_of(g, o, s, x)
}

/// Whether the row is a symbol that occurs inside of `sym`.
pub open spec fn is_callee(g: GraphV, sym: i64, x: RelatedV) -> bool {
    exists|q: RelationRow, o: OccRow, s: SymbolV|
        #[trigger] relates(g, q, o, 0x12000, s.id, sym) && #[trigger] g.symbols.contains(s)
            && is_row_of(g, o, s, x)
}

/// Whether the row tells the symbol, and where and in what roles the occurrence
/// is.
pub open spec fn is_row_of(g: GraphV, o: OccRow, s: SymbolV, x: RelatedV) -> bool {
    &&& x.name == s.name
    &&& x.kind == s.kind
    &&& x.usr == s.usr
    &&& in_path(g, o, x.path)
    &&& x.line == o.line
    &&& x.roles == o.roles
}

/// Whether the row is a caller or a callee.
pub open spec fn is_other_end(g: GraphV, sym: i64, side: Side, x: RelatedV) -> bool {
    match side {
        Side::Occurring => is_caller(g, sym, x),
        Side::Related => is_callee(g, sym, x),
    }
}

proof fn lemma_related_found(g: GraphV, sym: i64, side: Side, x: RelatedV)
    requires
        g.keyed(),
        query::related_all(g, sym, query::ROLES_INSIDE, side).contains(x),
    ensures
        is_other_end(g, sym, side, x),
{
    let f = query::pick_related(g, sym, query::ROLES_INSIDE, side);
    naming::law_roles_have_their_bits();
    rows::lemma_gather_members(g.relations, f, x);
    let i = choose|i: int| 0 <= i < g.relations.len() && f(#[trigger] g.relations[i]).contains(x);
    let q = g.relations[i];
    law_ids_lead_to_rows(g.occurrences, q.occ_id);
    let o = db::by_id(g.occurrences, q.occ_id).unwrap();
    lemma_path(g, o, x.path);
    let other = query::end_of(query::opposite(side), o, q);
    law_ids_lead_to_rows(g.symbols, other);
    let s = db::by_id(g.symbols, other).unwrap();
    assert(g.relations.contains(q));
    assert(is_row_of(g, o, s, x));
    match side {
        Side::Occurring => {
            assert(relates(g, q, o, 0x12000, sym, s.id));
        },
        Side::Related => {
            assert(relates(g, q, o, 0x12000, s.id, sym));
        },
    }
}

proof fn lemma_related_there(
    g: GraphV,
    sym: i64,
    side: Side,
    x: RelatedV,
    q: RelationRow,
    o: OccRow,
    s: SymbolV,
)
    requires
        g.keyed(),
        g.symbols.contains(s),
        is_row_of(g, o, s, x),
        match side {
            Side::Occurring => relates(g, q, o, 0x12000, sym, s.id),
            Side::Related => relates(g, q, o, 0x12000, s.id, sym),
        },
    ensures
        query::related_all(g, sym, query::ROLES_INSIDE, side).contains(x),
{
    let f = query::pick_related(g, sym, query::ROLES_INSIDE, side);
    naming::law_roles_have_their_bits();
    rows::lemma_gather_members(g.relations, f, x);
    law_ids_lead_to_rows(g.occurrences, q.occ_id);
    assert(g.occurrences.contains(o) && o.id == q.occ_id);
    law_ids_lead_to_rows(g.symbols, s.id);
    lemma_path(g, o, x.path);
    let i = choose|i: int| 0 <= i < g.relations.len() && g.relations[i] == q;
    assert(f(g.relations[i])[0] == x);
    assert(f(g.relations[i]).contains(x));
}

pub proof fn lemma_related(g: GraphV, sym: i64, side: Side, x: RelatedV)
    requires
        g.keyed(),
    ensures
        query::related_all(g, sym, query::ROLES_INSIDE, side).contains(x) <==> is_other_end(
            g,
            sym,
            side,
            x,
        ),
{
    if query::related_all(g, sym, query::ROLES_INSIDE, side).contains(x) {
        lemma_related_found(g, sym, side, x);
    }
    if is_other_end(g, sym, side, x) {
        match side {
            Side::Occurring => {
                let (q, o, s) = choose|q: RelationRow, o: OccRow, s: SymbolV|
                    #[trigger] relates(g, q, o, 0x12000, sym, s.id) && #[trigger] g.symbols.contains(
                        s,
                    ) && is_row_of(g, o, s, x);
                lemma_related_there(g, sym, side, x, q, o, s);
            },
            Side::Related => {
                let (q, o, s) = choose|q: RelationRow, o: OccRow, s: SymbolV|
                    #[trigger] relates(g, q, o, 0x12000, s.id, sym) && #[trigger] g.symbols.contains(
                        s,
                    ) && is_row_of(g, o, s, x);
                lemma_related_there(g, sym, side, x, q, o, s);
            },
        }
    }
}

/// Whether the name is that of a symbol whose occurrence is related to `sym`.
pub open spec fn is_related_to(g: GraphV, sym: i64, bit: u64, x: NameV) -> bool {
    exists|q: RelationRow, o: OccRow, s: SymbolV|
        #[trigger] relates(g, q, o, bit, s.id, sym) && #[trigger] g.symbols.contains(s) && x.name
            == s.name && x.kind == s.kind && x.usr == s.usr
}

/// Whether the name is that of a symbol that an occurrence of `sym` is related to.
pub open spec fn is_related_from(g: GraphV, sym: i64, bit: u64, x: NameV) -> bool {
    exists|q: RelationRow, o: OccRow, s: SymbolV|
        #[trigger] relates(g, q, o, bit, sym, s.id) && #[trigger] g.symbols.contains(s) && x.name
            == s.name && x.kind == s.kind && x.usr == s.usr
}

/// Whether the name is that of a symbol at the other end.
pub open spec fn is_named(g: GraphV, sym: i64, bit: u64, side: Side, x: NameV) -> bool {
    match side {
        Side::Occurring => is_related_from(g, sym, bit, x),
        Side::Related => is_related_to(g, sym, bit, x),
    }
}

proof fn lemma_name_there(
    g: GraphV,
    sym: i64,
    bit: u64,
    side: Side,
    x: NameV,
    q: RelationRow,
    o: OccRow,
    s: SymbolV,
)
    requires
        g.keyed(),
        g.symbols.contains(s),
        x.name == s.name && x.kind == s.kind && x.usr == s.usr,
        match side {
            Side::Occurring => relates(g, q, o, bit, sym, s.id),
            Side::Related => relates(g, q, o, bit, s.id, sym),
        },
    ensures
        rows::gather(g.relations, query::pick_name(g, sym, bit, side)).contains(x),
{
    let f = query::pick_name(g, sym, bit, side);
    rows::lemma_gather_members(g.relations, f, x);
    law_ids_lead_to_rows(g.occurrences, q.occ_id);
    assert(g.occurrences.contains(o) && o.id == q.occ_id);
    law_ids_lead_to_rows(g.symbols, s.id);
    let i = choose|i: int| 0 <= i < g.relations.len() && g.relations[i] == q;
    assert(f(g.relations[i])[0] == x);
    assert(f(g.relations[i]).contains(x));
}

pub proof fn lemma_names(g: GraphV, sym: i64, bit: u64, side: Side, x: NameV)
    requires
        g.keyed(),
    ensures
        rows::gather(g.relations, query::pick_name(g, sym, bit, side)).contains(x) <==> is_named(
            g,
            sym,
            bit,
            side,
            x,
        ),
{
    let f = query::pick_name(g, sym, bit, side);
    if rows::gather(g.relations, f).contains(x) {
        rows::lemma_gather_members(g.relations, f, x);
        let i = choose|i: int| 0 <= i < g.relations.len() && f(#[trigger] g.relations[i]).contains(x);
        let q = g.relations[i];
        law_ids_lead_to_rows(g.occurrences, q.occ_id);
        let o = db::by_id(g.occurrences, q.occ_id).unwrap();
        let other = query::end_of(query::opposite(side), o, q);
        law_ids_lead_to_rows(g.symbols, other);
        let s = db::by_id(g.symbols, other).unwrap();
        assert(g.relations.contains(q));
        match side {
            Side::Occurring => {
                assert(relates(g, q, o, bit, sym, s.id));
            },
            Side::Related => {
                assert(relates(g, q, o, bit, s.id, sym));
            },
        }
    }
    if is_named(g, sym, bit, side, x) {
        match side {
            Side::Occurring => {
                let (q, o, s) = choose|q: RelationRow, o: OccRow, s: SymbolV|
                    #[trigger] relates(g, q, o, bit, sym, s.id) && #[trigger] g.symbols.contains(s)
                        && x.name == s.name && x.kind == s.kind && x.usr == s.usr;
                lemma_name_there(g, sym, bit, side, x, q, o, s);
            },
            Side::Related => {
                let (q, o, s) = choose|q: RelationRow, o: OccRow, s: SymbolV|
                    #[trigger] relates(g, q, o, bit, s.id, sym) && #[trigger] g.symbols.contains(s)
                        && x.name == s.name && x.kind == s.kind && x.usr == s.usr;
                lemma_name_there(g, sym, bit, side, x, q, o, s);
            },
        }
    }
}

/// Whether the relation tells the name of a symbol at the other end.
pub open spec fn tells_name(
    g: GraphV,
    sym: i64,
    bit: u64,
    side: Side,
    q: RelationRow,
    x: NameV,
) -> bool {
    exists|o: OccRow, s: SymbolV|
        #[trigger] g.occurrences.contains(o) && #[trigger] g.symbols.contains(s) && (match side {
            Side::Occurring => relates(g, q, o, bit, sym, s.id),
            Side::Related => relates(g, q, o, bit, s.id, sym),
        }) && x.name == s.name && x.kind == s.kind && x.usr == s.usr
}

pub proof fn lemma_name_row(
    g: GraphV,
    sym: i64,
    bit: u64,
    side: Side,
    q: RelationRow,
    x: NameV,
)
    requires
        g.keyed(),
        g.relations.contains(q),
    ensures
        query::pick_name(g, sym, bit, side)(q).contains(x) <==> tells_name(
            g,
            sym,
            bit,
            side,
            q,
            x,
        ),
{
    let f = query::pick_name(g, sym, bit, side);
    law_ids_lead_to_rows(g.occurrences, q.occ_id);
    if f(q).contains(x) {
        let o = db::by_id(g.occurrences, q.occ_id).unwrap();
        let other = query::end_of(query::opposite(side), o, q);
        law_ids_lead_to_rows(g.symbols, other);
        let s = db::by_id(g.symbols, other).unwrap();
        assert(g.occurrences.contains(o) && g.symbols.contains(s));
    }
    if tells_name(g, sym, bit, side, q, x) {
        let (o, s) = choose|o: OccRow, s: SymbolV|
            #[trigger] g.occurrences.contains(o) && #[trigger] g.symbols.contains(s) && (match side {
                Side::Occurring => relates(g, q, o, bit, sym, s.id),
                Side::Related => relates(g, q, o, bit, s.id, sym),
            }) && x.name == s.name && x.kind == s.kind && x.usr == s.usr;
        assert(g.occurrences.contains(o) && o.rid() == q.occ_id);
        law_ids_lead_to_rows(g.symbols, s.id);
        assert(f(q)[0] == x);
    }
}

/// Whether the relation tells a member.
pub open spec fn tells_member(g: GraphV, sym: i64, q: RelationRow, x: SymV) -> bool {
    exists|o: OccRow, s: SymbolV|
        #[trigger] g.occurrences.contains(o) && #[trigger] g.symbols.contains(s) && relates(
            g,
            q,
            o,
            0x200,
            s.id,
            sym,
        ) && !naming::left_out(s.name) && x.id == s.id && x.name == s.name && x.kind == s.kind
            && x.usr == s.usr
}

pub proof fn lemma_member_row(g: GraphV, sym: i64, q: RelationRow, x: SymV)
    requires
        g.keyed(),
        g.relations.contains(q),
    ensures
        query::pick_member(g, sym)(q).contains(x) <==> tells_member(g, sym, q, x),
{
    let f = query::pick_member(g, sym);
    naming::law_roles_have_their_bits();
    law_ids_lead_to_rows(g.occurrences, q.occ_id);
    if f(q).contains(x) {
        let o = db::by_id(g.occurrences, q.occ_id).unwrap();
        law_ids_lead_to_rows(g.symbols, o.symbol_id);
        let s = db::by_id(g.symbols, o.symbol_id).unwrap();
        naming::law_only_these_names_are_left_out(s.name);
        assert(g.occurrences.contains(o) && g.symbols.contains(s));
    }
    if tells_member(g, sym, q, x) {
        let (o, s) = choose|o: OccRow, s: SymbolV|
            #[trigger] g.occurrences.contains(o) && #[trigger] g.symbols.contains(s) && relates(
                g,
                q,
                o,
                0x200,
                s.id,
                sym,
            ) && !naming::left_out(s.name) && x.id == s.id && x.name == s.name && x.kind == s.kind
                && x.usr == s.usr;
        assert(g.occurrences.contains(o) && o.rid() == q.occ_id);
        naming::law_only_these_names_are_left_out(s.name);
        law_ids_lead_to_rows(g.symbols, s.id);
        assert(f(q)[0] == x);
    }
}

/// Whether the symbol occurs as a child of `sym`, and its name is none that is
/// left out.
pub open spec fn is_member(g: GraphV, sym: i64, x: SymV) -> bool {
    exists|q: RelationRow, o: OccRow, s: SymbolV|
        #[trigger] relates(g, q, o, 0x200, s.id, sym) && #[trigger] g.symbols.contains(s)
            && !naming::left_out(s.name) && x.id == s.id && x.name == s.name && x.kind == s.kind
            && x.usr == s.usr
}

pub proof fn lemma_members(g: GraphV, sym: i64, x: SymV)
    requires
        g.keyed(),
    ensures
        rows::gather(g.relations, query::pick_member(g, sym)).contains(x) <==> is_member(g, sym, x),
{
    let f = query::pick_member(g, sym);
    naming::law_roles_have_their_bits();
    rows::lemma_gather_members(g.relations, f, x);
    if rows::gather(g.relations, f).contains(x) {
        let i = choose|i: int| 0 <= i < g.relations.len() && f(#[trigger] g.relations[i]).contains(x);
        let q = g.relations[i];
        law_ids_lead_to_rows(g.occurrences, q.occ_id);
        let o = db::by_id(g.occurrences, q.occ_id).unwrap();
        law_ids_lead_to_rows(g.symbols, o.symbol_id);
        let s = db::by_id(g.symbols, o.symbol_id).unwrap();
        naming::law_only_these_names_are_left_out(s.name);
        assert(g.relations.contains(q));
        assert(relates(g, q, o, 0x200, s.id, sym));
    }
    if is_member(g, sym, x) {
        let (q, o, s) = choose|q: RelationRow, o: OccRow, s: SymbolV|
            #[trigger] relates(g, q, o, 0x200, s.id, sym) && #[trigger] g.symbols.contains(s)
                && !naming::left_out(s.name) && x.id == s.id && x.name == s.name && x.kind == s.kind
                && x.usr == s.usr;
        naming::law_only_these_names_are_left_out(s.name);
        law_ids_lead_to_rows(g.occurrences, q.occ_id);
        assert(g.occurrences.contains(o) && o.id == q.occ_id);
        law_ids_lead_to_rows(g.symbols, s.id);
        let i = choose|i: int| 0 <= i < g.relations.len() && g.relations[i] == q;
        assert(f(g.relations[i])[0] == x);
        assert(f(g.relations[i]).contains(x));
    }
}

/// Whether the occurrence declares or defines the symbol in the file, and is
/// written there.
pub open spec fn declares_in(g: GraphV, o: OccRow, sym: i64, file: i64) -> bool {
    &&& g.occurrences.contains(o)
    &&& o.symbol_id == sym
    &&& naming::has_bit(o.roles, 0x3)
    &&& !naming::has_bit(o.roles, 0x100)
    &&& exists|r: RecordV| #[trigger] g.records.contains(r) && r.id == o.record_id && r.file_id == file
}

/// Whether the row is a symbol that the file declares or defines, with the first
/// line that does.
pub open spec fn is_outlined(g: GraphV, file: i64, x: OutlineV) -> bool {
    exists|s: SymbolV| #[trigger]
        g.symbols.contains(s) && s.kind != 25 && !naming::left_out(s.name) && x.name == s.name
            && x.kind == s.kind && x.usr == s.usr && is_first_line(g, s.id, file, x.line as int)
}

/// Whether the line is the least that declares or defines the symbol in the file.
pub open spec fn is_first_line(g: GraphV, sym: i64, file: i64, line: int) -> bool {
    &&& exists|o: OccRow| #[trigger] declares_in(g, o, sym, file) && o.line == line
    &&& forall|o: OccRow| #[trigger] declares_in(g, o, sym, file) ==> line <= o.line
}

proof fn lemma_declares(g: GraphV, o: OccRow, sym: i64, file: i64)
    requires
        g.keyed(),
        g.occurrences.contains(o),
    ensures
        o.symbol_id == sym && query::declares(g, file, o) <==> declares_in(g, o, sym, file),
{
    naming::law_roles_have_their_bits();
    law_ids_lead_to_rows(g.records, o.record_id);
    if query::declares(g, file, o) {
        assert(g.records.contains(db::by_id(g.records, o.record_id).unwrap()));
    }
}

proof fn lemma_first_line(g: GraphV, file: i64, sym: i64)
    requires
        g.keyed(),
    ensures
        match query::first_line(g, file, g.occurrences, sym) {
            Some(l) => is_first_line(g, sym, file, l as int),
            None => forall|o: OccRow| !#[trigger] declares_in(g, o, sym, file),
        },
{
    let occs = g.occurrences;
    answers::law_first_line_is_the_least(g, file, occs, sym);
    assert forall|o: OccRow| #[trigger] declares_in(g, o, sym, file) implies (exists|i: int|
        0 <= i < occs.len() && occs[i] == o && (#[trigger] occs[i]).symbol_id == sym
            && query::declares(g, file, occs[i])) by {
        lemma_declares(g, o, sym, file);
        let i = choose|i: int| 0 <= i < occs.len() && occs[i] == o;
        assert(occs[i].symbol_id == sym);
    }
    if let Some(l) = query::first_line(g, file, occs, sym) {
        let i = choose|i: int|
            0 <= i < occs.len() && (#[trigger] occs[i]).symbol_id == sym && query::declares(
                g,
                file,
                occs[i],
            ) && occs[i].line == l;
        assert(occs.contains(occs[i]));
        lemma_declares(g, occs[i], sym, file);
        assert(declares_in(g, occs[i], sym, file));
    }
}

pub proof fn lemma_outlined(g: GraphV, file: i64, x: OutlineV)
    requires
        g.keyed(),
    ensures
        query::outline_all(g, file).contains(x) <==> is_outlined(g, file, x),
{
    let f = query::pick_outline(g, file);
    rows::lemma_gather_members(g.symbols, f, x);
    if query::outline_all(g, file).contains(x) {
        let i = choose|i: int| 0 <= i < g.symbols.len() && f(#[trigger] g.symbols[i]).contains(x);
        let s = g.symbols[i];
        lemma_first_line(g, file, s.id);
        naming::law_only_these_names_are_left_out(s.name);
        assert(g.symbols.contains(s));
    }
    if is_outlined(g, file, x) {
        let s = choose|s: SymbolV| #[trigger]
            g.symbols.contains(s) && s.kind != 25 && !naming::left_out(s.name) && x.name == s.name
                && x.kind == s.kind && x.usr == s.usr && is_first_line(
                g,
                s.id,
                file,
                x.line as int,
            );
        lemma_first_line(g, file, s.id);
        naming::law_only_these_names_are_left_out(s.name);
        let o = choose|o: OccRow| #[trigger] declares_in(g, o, s.id, file) && o.line == x.line;
        assert(declares_in(g, o, s.id, file));
        let l = query::first_line(g, file, g.occurrences, s.id).unwrap();
        let p = choose|p: OccRow| #[trigger] declares_in(g, p, s.id, file) && p.line == l;
        assert(declares_in(g, p, s.id, file));
        assert(l == x.line);
        let i = choose|i: int| 0 <= i < g.symbols.len() && g.symbols[i] == s;
        assert(f(g.symbols[i])[0] == x);
        assert(f(g.symbols[i]).contains(x));
    }
}

} // verus!
