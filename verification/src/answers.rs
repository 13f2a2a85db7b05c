//! What holds of answers.
use vstd::prelude::*;

use crate::db::{self, FileRow, FileV, GraphV, HasName, OccRow, SymbolV};
use crate::ffi;
use crate::growth;
use crate::laws;
use crate::merge;
use crate::mirror::{self, Records, Units};
use crate::plan;
use crate::query::{
    self, MemberRow, MemberV, NameV, OutlineRow, OutlineV, Place, PlaceV, RefRow, RefV, RelatedRow,
    RelatedV, Side, Sym, SymV,
};
use crate::rows;
use crate::store::SnapshotV;
use crate::text;

verus! {

// ---- order --------------------------------------------------------------

/// Every occurrence of a symbol, before repeats are removed.
pub open spec fn refs_found(g: GraphV, sym: i64) -> Seq<RefV> {
    rows::gather(g.occurrences, query::pick_ref(g, sym))
}

/// The list of the occurrences of a symbol holds no row twice, is in the order
/// of paths and lines, holds only what was found, and all of it unless it is as
/// long as it may be.
pub proof fn law_refs_are_listed(g: GraphV, sym: i64, limit: nat)
    ensures
        ({
            let r = query::ref_rows(g, sym, limit);
            &&& r.no_duplicates()
            &&& rows::in_order(r, rows::row_order::<RefRow>())
            &&& r.len() <= limit
            &&& forall|x: RefV| #[trigger] r.contains(x) ==> refs_found(g, sym).contains(x)
            &&& r.len() < limit ==> forall|x: RefV| #[trigger]
                refs_found(g, sym).contains(x) ==> r.contains(x)
        }),
{
    rows::law_rows_can_be_ordered::<RefRow>();
    rows::law_lists_hold_what_was_found(
        refs_found(g, sym),
        rows::row_order::<RefRow>(),
        limit,
    );
}

/// The list of callers or callees holds no row twice, has calls first and is
/// then in the order of paths and lines, holds only what was found, and all of
/// it unless it is as long as it may be.
pub proof fn law_related_are_listed(g: GraphV, sym: i64, mask: u64, side: Side, limit: nat)
    ensures
        ({
            let r = query::related_first(g, sym, mask, side, limit);
            let found = query::related_all(g, sym, mask, side);
            &&& r.no_duplicates()
            &&& rows::in_order(r, rows::row_order::<RelatedRow>())
            &&& r.len() <= limit
            &&& forall|x: RelatedV| #[trigger] r.contains(x) ==> found.contains(x)
            &&& r.len() < limit ==> forall|x: RelatedV| #[trigger]
                found.contains(x) ==> r.contains(x)
        }),
{
    rows::law_rows_can_be_ordered::<RelatedRow>();
    rows::law_lists_hold_what_was_found(
        query::related_all(g, sym, mask, side),
        rows::row_order::<RelatedRow>(),
        limit,
    );
}

/// Every place where a symbol is defined, before repeats are removed.
pub open spec fn definitions_found(g: GraphV, sym: i64) -> Seq<PlaceV> {
    rows::gather(g.occurrences, query::pick_definition(g, sym))
}

/// The list of the places where a symbol is defined holds no place twice, is in
/// the order of paths, holds only what was found, and all of it unless it is as
/// long as it may be.
pub proof fn law_definitions_are_listed(g: GraphV, sym: i64, limit: nat)
    ensures
        ({
            let r = query::definition_places(g, sym, limit);
            let found = definitions_found(g, sym);
            &&& r.no_duplicates()
            &&& rows::in_order(r, rows::row_order::<Place>())
            &&& r.len() <= limit
            &&& forall|x: PlaceV| #[trigger] r.contains(x) ==> found.contains(x)
            &&& r.len() < limit ==> forall|x: PlaceV| #[trigger]
                found.contains(x) ==> r.contains(x)
        }),
{
    rows::law_rows_can_be_ordered::<Place>();
    rows::law_lists_hold_what_was_found(
        definitions_found(g, sym),
        rows::row_order::<Place>(),
        limit,
    );
}

/// The members of a symbol are listed in the order of where they are defined,
/// each of those that were found once.
pub proof fn law_members_are_in_order(
    g: GraphV,
    sh: Seq<(Seq<char>, Seq<char>)>,
    sym: i64,
    limit: nat,
)
    ensures
        ({
            let r = query::member_rows(g, sh, sym, limit);
            let found = query::members_of(g, sym, limit);
            &&& rows::in_order(r, rows::row_order::<MemberRow>())
            &&& r.to_multiset() == found.map_values(query::member_row(g, sh)).to_multiset()
            &&& found.no_duplicates()
            &&& found.len() <= limit
        }),
{
    let found = query::members_of(g, sym, limit);
    let all = rows::gather(g.relations, query::pick_member(g, sym));
    rows::law_rows_can_be_ordered::<MemberRow>();
    rows::law_sorting_orders(
        found.map_values(query::member_row(g, sh)),
        rows::row_order::<MemberRow>(),
    );
    rows::law_distinct_leaves_each_once(all);
    let d = rows::distinct(all);
    assert forall|i: int, j: int|
        0 <= i < found.len() && 0 <= j < found.len() && i != j implies found[i] != found[j] by {
        assert(d[i] != d[j]);
    }
}

/// Symbols that were found by a part of their names come with the shorter names
/// first, and files with the shorter paths first.
pub proof fn law_shorter_names_come_first(g: GraphV, t: Seq<char>)
    ensures
        rows::in_order(query::with_name_like(g, t), rows::row_order::<Sym>()),
        rows::in_order(query::outline_files(g, t), rows::row_order::<FileRow>()),
        query::outline_files(g, t).len() <= query::OUTLINE_FILES,
{
    rows::law_rows_can_be_ordered::<Sym>();
    let p = |s: SymbolV| text::holds_nocase(s.name, t);
    rows::law_sorting_orders(query::symbols_where(g, p), rows::row_order::<Sym>());
    rows::law_rows_can_be_ordered::<FileRow>();
    let found = rows::gather(g.files, query::pick_file(t));
    let le = rows::row_order::<FileRow>();
    rows::law_sorting_orders(found, le);
    let all = rows::sorted(found, le);
    let r = query::outline_files(g, t);
    assert forall|i: int, j: int| 0 <= i < j < r.len() implies le(
        #[trigger] r[i],
        #[trigger] r[j],
    ) by {
        assert(le(all[i], all[j]));
    }
}

/// An outline is in the order of its lines, and no longer than it may be.
pub proof fn law_outlines_are_in_order(g: GraphV, file: i64, limit: nat)
    ensures
        rows::in_order(query::outline_rows(g, file, limit), rows::row_order::<OutlineRow>()),
        query::outline_rows(g, file, limit).len() <= limit,
{
    rows::law_rows_can_be_ordered::<OutlineRow>();
    let found = query::outline_all(g, file);
    let t = rows::sorted(found, rows::row_order::<OutlineRow>());
    let r = query::outline_rows(g, file, limit);
    rows::law_sorting_orders(found, rows::row_order::<OutlineRow>());
    let le = rows::row_order::<OutlineRow>();
    assert forall|i: int, j: int| 0 <= i < j < r.len() implies le(
        #[trigger] r[i],
        #[trigger] r[j],
    ) by {
        assert(le(t[i], t[j]));
    }
}

/// The first line of a symbol in a file is the least of the lines that declare
/// or define it there, and there is one where any does.
pub proof fn law_first_line_is_the_least(
    g: GraphV,
    file: i64,
    occs: Seq<OccRow>,
    sym: i64,
)
    ensures
        match query::first_line(g, file, occs, sym) {
            Some(l) => {
                &&& exists|i: int|
                    0 <= i < occs.len() && (#[trigger] occs[i]).symbol_id == sym
                        && query::declares(g, file, occs[i]) && occs[i].line == l
                &&& forall|i: int|
                    0 <= i < occs.len() && (#[trigger] occs[i]).symbol_id == sym
                        && query::declares(g, file, occs[i]) ==> l <= occs[i].line
            },
            None => forall|i: int|
                0 <= i < occs.len() && (#[trigger] occs[i]).symbol_id == sym ==> !query::declares(
                    g,
                    file,
                    occs[i],
                ),
        },
    decreases occs.len(),
{
    if occs.len() > 0 {
        let init = occs.drop_last();
        let o = occs.last();
        law_first_line_is_the_least(g, file, init, sym);
        let last = occs.len() - 1;
        assert(occs[last] == o);
        assert forall|i: int| 0 <= i < last implies init[i] == #[trigger] occs[i] by {}
        if let Some(l) = query::first_line(g, file, init, sym) {
            let i = choose|i: int|
                0 <= i < init.len() && (#[trigger] init[i]).symbol_id == sym && query::declares(
                    g,
                    file,
                    init[i],
                ) && init[i].line == l;
            assert(occs[i] == init[i]);
        }
        assert forall|i: int| 0 <= i < occs.len() && i != last implies (#[trigger] occs[i])
            == init[i] by {}
    }
}

// ---- what questions stand for -------------------------------------------

/// A question stands for at most as many symbols as it may, unless it is a USR.
pub proof fn law_questions_keep_to_the_limit(g: GraphV, q: Seq<char>, limit: nat)
    requires
        !"c:"@.is_prefix_of(q),
    ensures
        query::resolved(g, q, limit).len() <= limit,
{
}

proof fn lemma_gather_one<A, B>(s: Seq<A>, f: spec_fn(A) -> Seq<B>, k: int)
    requires
        0 <= k < s.len(),
        forall|i: int|
            0 <= i < s.len() && i != k ==> f(#[trigger] s[i]) == Seq::<B>::empty(),
    ensures
        rows::gather(s, f) == f(s[k]),
{
    let a = s.take(k);
    let b = s.skip(k);
    let c = b.drop_first();
    assert(s =~= a + b);
    rows::lemma_gather_concat(a, b, f);
    assert forall|i: int| 0 <= i < a.len() implies f(#[trigger] a[i]) == Seq::<B>::empty() by {
        assert(a[i] == s[i]);
    }
    rows::lemma_gather_nothing(a, f);
    assert forall|i: int| 0 <= i < c.len() implies f(#[trigger] c[i]) == Seq::<B>::empty() by {
        assert(c[i] == s[k + 1 + i]);
    }
    rows::lemma_gather_nothing(c, f);
    assert(b[0] == s[k]);
    assert(rows::gather(s, f) =~= f(s[k]));
}

/// A USR stands for the one symbol that has it, or for none.
pub proof fn law_usr_stands_for_one_symbol(g: GraphV, usr: Seq<char>, limit: nat)
    requires
        g.keyed(),
        "c:"@.is_prefix_of(usr),
    ensures
        query::resolved(g, usr, limit) == (match db::by_name(g.symbols, usr) {
            Some(s) => seq![query::sym_of(s)],
            None => Seq::empty(),
        }),
{
    let p = |s: SymbolV| s.usr == usr;
    let f = query::pick_symbol(p);
    match db::by_name(g.symbols, usr) {
        Some(s) => {
            let k = choose|k: int| db::has_name_at(g.symbols, usr, k);
            assert(db::has_name_at(g.symbols, usr, k));
            assert forall|i: int| 0 <= i < g.symbols.len() && i != k implies f(
                #[trigger] g.symbols[i],
            ) == Seq::<SymV>::empty() by {
                db::lemma_by_name(g.symbols, k);
                if g.symbols[i].usr == usr {
                    db::lemma_by_name(g.symbols, i);
                    if i < k {
                        assert(g.symbols[i].key() != g.symbols[k].key());
                    } else {
                        assert(g.symbols[k].key() != g.symbols[i].key());
                    }
                }
            }
            lemma_gather_one(g.symbols, f, k);
        },
        None => {
            assert forall|i: int| 0 <= i < g.symbols.len() implies f(#[trigger] g.symbols[i])
                == Seq::<SymV>::empty() by {
                assert(!db::has_name_at(g.symbols, usr, i));
            }
            rows::lemma_gather_nothing(g.symbols, f);
        },
    }
}

/// A search finds the symbols that `p` holds of, and no others.
proof fn lemma_symbols_where(g: GraphV, p: spec_fn(SymbolV) -> bool, x: SymV)
    ensures
        query::symbols_where(g, p).contains(x) <==> exists|s: SymbolV|
            #[trigger] g.symbols.contains(s) && p(s) && query::sym_of(s) == x,
{
    let f = query::pick_symbol(p);
    rows::lemma_gather_members(g.symbols, f, x);
    if exists|i: int| 0 <= i < g.symbols.len() && f(#[trigger] g.symbols[i]).contains(x) {
        let i = choose|i: int| 0 <= i < g.symbols.len() && f(#[trigger] g.symbols[i]).contains(x);
        assert(g.symbols.contains(g.symbols[i]));
    }
    if exists|s: SymbolV| #[trigger] g.symbols.contains(s) && p(s) && query::sym_of(s) == x {
        let s = choose|s: SymbolV| #[trigger]
            g.symbols.contains(s) && p(s) && query::sym_of(s) == x;
        let i = choose|i: int| 0 <= i < g.symbols.len() && g.symbols[i] == s;
        assert(f(g.symbols[i])[0] == x);
        assert(f(g.symbols[i]).contains(x));
    }
}

/// A question by a part of a name fits the symbols whose names hold that part,
/// and an outline by a part of a path the files whose paths hold it, ASCII
/// letters in either case and every other character as it stands.
pub proof fn law_parts_of_names_are_found(g: GraphV, part: Seq<char>)
    ensures
        forall|x: SymV| #[trigger]
            query::with_name_like(g, part).contains(x) <==> exists|s: SymbolV|
                #[trigger] g.symbols.contains(s) && text::holds_nocase(s.name, part)
                    && query::sym_of(s) == x,
        forall|f: FileV| #[trigger]
            rows::gather(g.files, query::pick_file(part)).contains(f) <==> g.files.contains(f)
                && text::holds_nocase(f.path, part),
{
    let p = |s: SymbolV| text::holds_nocase(s.name, part);
    let found = query::symbols_where(g, p);
    rows::law_rows_can_be_ordered::<Sym>();
    rows::law_sorting_orders(found, rows::row_order::<Sym>());
    assert forall|x: SymV| #[trigger]
        query::with_name_like(g, part).contains(x) <==> exists|s: SymbolV|
            #[trigger] g.symbols.contains(s) && text::holds_nocase(s.name, part) && query::sym_of(
                s,
            ) == x by {
        lemma_symbols_where(g, p, x);
        assert(query::with_name_like(g, part).contains(x) <==> found.contains(x)) by {
            broadcast use vstd::seq_lib::group_to_multiset_ensures;
            assert(query::with_name_like(g, part).to_multiset().count(x)
                == found.to_multiset().count(x));
        }
        if found.contains(x) {
            let s = choose|s: SymbolV| #[trigger]
                g.symbols.contains(s) && p(s) && query::sym_of(s) == x;
            assert(g.symbols.contains(s) && text::holds_nocase(s.name, part));
        }
        if exists|s: SymbolV|
            #[trigger] g.symbols.contains(s) && text::holds_nocase(s.name, part)
                && query::sym_of(s) == x {
            let s = choose|s: SymbolV|
                #[trigger] g.symbols.contains(s) && text::holds_nocase(s.name, part)
                    && query::sym_of(s) == x;
            assert(g.symbols.contains(s) && p(s));
        }
    }
    let h = query::pick_file(part);
    assert forall|f: FileV| #[trigger]
        rows::gather(g.files, h).contains(f) <==> g.files.contains(f) && text::holds_nocase(
            f.path,
            part,
        ) by {
        rows::lemma_gather_members(g.files, h, f);
        if g.files.contains(f) && text::holds_nocase(f.path, part) {
            let i = choose|i: int| 0 <= i < g.files.len() && g.files[i] == f;
            assert(h(g.files[i])[0] == f);
            assert(h(g.files[i]).contains(f));
        }
    }
}

/// A scoped name fits the symbols with its last part for their name whose USRs
/// hold the containers in their order and then the name.
pub proof fn law_scoped_names_narrow_by_containers(g: GraphV, parts: Seq<Seq<char>>)
    ensures
        forall|x: SymV| #[trigger]
            query::with_scope(g, parts).contains(x) <==> exists|s: SymbolV|
                #[trigger] g.symbols.contains(s) && s.name == parts.last() && query::holds_scope(
                    s.usr,
                    parts,
                ) && query::sym_of(s) == x,
{
    let p = |s: SymbolV| s.name == parts.last() && query::holds_scope(s.usr, parts);
    assert forall|x: SymV| #[trigger]
        query::with_scope(g, parts).contains(x) <==> exists|s: SymbolV|
            #[trigger] g.symbols.contains(s) && s.name == parts.last() && query::holds_scope(
                s.usr,
                parts,
            ) && query::sym_of(s) == x by {
        lemma_symbols_where(g, p, x);
        if query::with_scope(g, parts).contains(x) {
            let s = choose|s: SymbolV| #[trigger]
                g.symbols.contains(s) && p(s) && query::sym_of(s) == x;
            assert(g.symbols.contains(s) && s.name == parts.last());
        }
        if exists|s: SymbolV|
            #[trigger] g.symbols.contains(s) && s.name == parts.last() && query::holds_scope(
                s.usr,
                parts,
            ) && query::sym_of(s) == x {
            let s = choose|s: SymbolV|
                #[trigger] g.symbols.contains(s) && s.name == parts.last()
                    && query::holds_scope(s.usr, parts) && query::sym_of(s) == x;
            assert(g.symbols.contains(s) && p(s));
        }
    }
}

/// A question that stands for a few symbols is answered for each of them, one
/// that stands for many is answered with the list of them, and one that stands
/// for none is answered with that.
pub proof fn law_few_are_answered_for_and_many_listed(
    g: GraphV,
    sh: Seq<(Seq<char>, Seq<char>)>,
    q: Seq<char>,
    block: spec_fn(SymV) -> Seq<char>,
)
    ensures
        ({
            let syms = query::resolved(g, q, query::TARGETS_MAX as nat);
            let answer = query::answer(query::targets(g, sh, q), block);
            &&& syms.len() == 0 ==> answer == query::nothing_found(q)
            &&& 1 <= syms.len() <= query::AUTO_EXPAND_MAX ==> answer == rows::gather(syms, block)
            &&& syms.len() > query::AUTO_EXPAND_MAX ==> answer == query::too_many(g, sh, syms)
        }),
{
}

// ---- both ends of relations ---------------------------------------------

proof fn lemma_symbol_by_usr(g: GraphV, s: SymbolV, a: SymbolV)
    requires
        g.keyed(),
        g.symbols.contains(s),
        g.symbols.contains(a),
        s.usr == a.usr,
    ensures
        s == a,
{
    growth::lemma_by_name_member(g.symbols, s);
    growth::lemma_by_name_member(g.symbols, a);
}

proof fn lemma_related_from(
    g: GraphV,
    a: SymbolV,
    b: SymbolV,
    mask: u64,
    side: Side,
    path: Seq<char>,
    line: i64,
    roles: i64,
)
    requires
        g.keyed(),
        g.symbols.contains(a),
        g.symbols.contains(b),
        query::related_all(g, a.id, mask, side).contains(
            RelatedV { name: b.name, kind: b.kind, usr: b.usr, path, line, roles },
        ),
    ensures
        query::related_all(g, b.id, mask, query::opposite(side)).contains(
            RelatedV { name: a.name, kind: a.kind, usr: a.usr, path, line, roles },
        ),
{
    let there = RelatedV { name: b.name, kind: b.kind, usr: b.usr, path, line, roles };
    let back = RelatedV { name: a.name, kind: a.kind, usr: a.usr, path, line, roles };
    let f = query::pick_related(g, a.id, mask, side);
    let h = query::pick_related(g, b.id, mask, query::opposite(side));
    rows::lemma_gather_members(g.relations, f, there);
    let i = choose|i: int| 0 <= i < g.relations.len() && f(#[trigger] g.relations[i]).contains(there);
    let r = g.relations[i];
    let o = db::by_id(g.occurrences, r.occ_id).unwrap();
    let other = query::end_of(query::opposite(side), o, r);
    let s = db::by_id(g.symbols, other).unwrap();
    growth::lemma_by_id_found(g.symbols, other);
    lemma_symbol_by_usr(g, s, b);
    growth::lemma_by_id_member(g.symbols, a);
    assert(query::opposite(query::opposite(side)) == side);
    assert(h(r) == seq![back]);
    assert(h(r)[0] == back);
    assert(h(g.relations[i]).contains(back));
    rows::lemma_gather_members(g.relations, h, back);
}

/// One symbol is among the callers of another at a place exactly where the other
/// is among its callees at that place.
pub proof fn law_callers_and_callees_mirror(
    g: GraphV,
    callee: SymbolV,
    caller: SymbolV,
    path: Seq<char>,
    line: i64,
    roles: i64,
)
    requires
        g.keyed(),
        g.symbols.contains(callee),
        g.symbols.contains(caller),
    ensures
        query::related_all(g, callee.id, query::ROLES_INSIDE, Side::Occurring).contains(
            RelatedV { name: caller.name, kind: caller.kind, usr: caller.usr, path, line, roles },
        ) <==> query::related_all(g, caller.id, query::ROLES_INSIDE, Side::Related).contains(
            RelatedV { name: callee.name, kind: callee.kind, usr: callee.usr, path, line, roles },
        ),
{
    let m = query::ROLES_INSIDE;
    if query::related_all(g, callee.id, m, Side::Occurring).contains(
        RelatedV { name: caller.name, kind: caller.kind, usr: caller.usr, path, line, roles },
    ) {
        lemma_related_from(g, callee, caller, m, Side::Occurring, path, line, roles);
    }
    if query::related_all(g, caller.id, m, Side::Related).contains(
        RelatedV { name: callee.name, kind: callee.kind, usr: callee.usr, path, line, roles },
    ) {
        lemma_related_from(g, caller, callee, m, Side::Related, path, line, roles);
    }
}

/// The symbols that are related to a symbol, before repeats are removed.
pub open spec fn names_found(g: GraphV, sym: i64, bit: u64, side: Side) -> Seq<NameV> {
    rows::gather(g.relations, query::pick_name(g, sym, bit, side))
}

proof fn lemma_names_from(g: GraphV, a: SymbolV, b: SymbolV, bit: u64, side: Side)
    requires
        g.keyed(),
        g.symbols.contains(a),
        g.symbols.contains(b),
        names_found(g, a.id, bit, side).contains(
            NameV { name: b.name, kind: b.kind, usr: b.usr },
        ),
    ensures
        names_found(g, b.id, bit, query::opposite(side)).contains(
            NameV { name: a.name, kind: a.kind, usr: a.usr },
        ),
{
    let there = NameV { name: b.name, kind: b.kind, usr: b.usr };
    let back = NameV { name: a.name, kind: a.kind, usr: a.usr };
    let f = query::pick_name(g, a.id, bit, side);
    let h = query::pick_name(g, b.id, bit, query::opposite(side));
    rows::lemma_gather_members(g.relations, f, there);
    let i = choose|i: int| 0 <= i < g.relations.len() && f(#[trigger] g.relations[i]).contains(there);
    let r = g.relations[i];
    let o = db::by_id(g.occurrences, r.occ_id).unwrap();
    let other = query::end_of(query::opposite(side), o, r);
    let s = db::by_id(g.symbols, other).unwrap();
    growth::lemma_by_id_found(g.symbols, other);
    lemma_symbol_by_usr(g, s, b);
    growth::lemma_by_id_member(g.symbols, a);
    assert(query::opposite(query::opposite(side)) == side);
    assert(h(r) == seq![back]);
    assert(h(r)[0] == back);
    assert(h(g.relations[i]).contains(back));
    rows::lemma_gather_members(g.relations, h, back);
}

/// One symbol is among the bases of another exactly where the other is among
/// what is derived from it, and one overrides another exactly where the other is
/// overridden by it.
pub proof fn law_hierarchies_mirror(g: GraphV, a: SymbolV, b: SymbolV, bit: u64)
    requires
        g.keyed(),
        g.symbols.contains(a),
        g.symbols.contains(b),
    ensures
        names_found(g, a.id, bit, Side::Related).contains(
            NameV { name: b.name, kind: b.kind, usr: b.usr },
        ) <==> names_found(g, b.id, bit, Side::Occurring).contains(
            NameV { name: a.name, kind: a.kind, usr: a.usr },
        ),
{
    if names_found(g, a.id, bit, Side::Related).contains(
        NameV { name: b.name, kind: b.kind, usr: b.usr },
    ) {
        lemma_names_from(g, a, b, bit, Side::Related);
    }
    if names_found(g, b.id, bit, Side::Occurring).contains(
        NameV { name: a.name, kind: a.kind, usr: a.usr },
    ) {
        lemma_names_from(g, b, a, bit, Side::Occurring);
    }
}

// ---- what is left out ---------------------------------------------------

/// Neither members nor outlines list what the reflection macros add, and
/// outlines list no parameters.
pub proof fn law_lists_leave_out_noise(g: GraphV, id: i64, limit: nat)
    ensures
        forall|s: SymV| #[trigger]
            query::members_of(g, id, limit).contains(s) ==> !query::is_noise(s.name),
        forall|r: OutlineV| #[trigger]
            query::outline_rows(g, id, limit).contains(r) ==> !query::is_noise(r.name) && r.kind
                != query::KIND_PARAMETER,
{
    let f = query::pick_member(g, id);
    let found = rows::gather(g.relations, f);
    rows::law_distinct_leaves_each_once(found);
    assert forall|s: SymV| #[trigger]
        query::members_of(g, id, limit).contains(s) implies !query::is_noise(s.name) by {
        let r = query::members_of(g, id, limit);
        let d = rows::distinct(found);
        let k = choose|k: int| 0 <= k < r.len() && r[k] == s;
        assert(d[k] == s);
        assert(d.contains(s));
        assert(found.contains(s));
        rows::lemma_gather_members(g.relations, f, s);
    }
    let h = query::pick_outline(g, id);
    let rows_found = rows::gather(g.symbols, h);
    rows::law_rows_can_be_ordered::<OutlineRow>();
    rows::law_sorting_orders(rows_found, rows::row_order::<OutlineRow>());
    assert forall|x: OutlineV| #[trigger]
        query::outline_rows(g, id, limit).contains(x) implies !query::is_noise(x.name) && x.kind
        != query::KIND_PARAMETER by {
        broadcast use vstd::seq_lib::group_to_multiset_ensures;

        let r = query::outline_rows(g, id, limit);
        let t = rows::sorted(rows_found, rows::row_order::<OutlineRow>());
        let k = choose|k: int| 0 <= k < r.len() && r[k] == x;
        assert(t[k] == x);
        assert(t.contains(x));
        assert(t.to_multiset().count(x) > 0);
        assert(rows_found.to_multiset().count(x) > 0);
        assert(rows_found.contains(x));
        rows::lemma_gather_members(g.symbols, h, x);
    }
}

// ---- what is cut short --------------------------------------------------

/// The line that heads a list of `limit` of `total` rows.
pub open spec fn cut_line(total: nat, limit: nat) -> Seq<char> {
    "  ("@ + text::dec_nat(total) + " total, showing "@ + text::dec_nat(limit) + ")\n"@
}

/// Whether the list of the lines is headed by a line that says so exactly where
/// the limit cut it short: where there are more than `limit` in all.
pub open spec fn says_so(total: nat, lines: Seq<Seq<char>>, limit: nat) -> bool {
    if total > limit {
        lines.len() == limit && query::listing(total, lines) == cut_line(total, limit)
            + rows::gather(lines, query::indented())
    } else {
        lines.len() == total && query::listing(total, lines) == rows::gather(
            lines,
            query::indented(),
        )
    }
}

proof fn lemma_says_so(total: nat, lines: Seq<Seq<char>>, limit: nat)
    requires
        lines.len() == if total > limit {
            limit
        } else {
            total
        },
    ensures
        says_so(total, lines, limit),
{
    if total <= limit {
        assert(query::listing(total, lines) =~= rows::gather(lines, query::indented()));
    }
}

proof fn lemma_sorted_len<T: rows::Ordered>(s: Seq<T::Said>)
    ensures
        rows::sorted(s, rows::row_order::<T>()).len() == s.len(),
{
    broadcast use vstd::seq_lib::group_to_multiset_ensures;

    rows::law_rows_can_be_ordered::<T>();
    rows::law_sorting_orders(s, rows::row_order::<T>());
    assert(rows::sorted(s, rows::row_order::<T>()).to_multiset().len() == s.to_multiset().len());
}

/// A list of occurrences says so exactly where the limit cut it short.
pub proof fn law_cut_lists_say_so(g: GraphV, sym: i64, limit: nat, f: spec_fn(RefV) -> Seq<char>)
    ensures
        says_so(
            rows::distinct(refs_found(g, sym)).len(),
            query::ref_rows(g, sym, limit).map_values(f),
            limit,
        ),
        query::ref_total(g, sym) == rows::distinct(refs_found(g, sym)).len(),
{
    lemma_sorted_len::<RefRow>(rows::distinct(refs_found(g, sym)));
    lemma_says_so(
        query::ref_total(g, sym),
        query::ref_rows(g, sym, limit).map_values(f),
        limit,
    );
}

/// A list of callers or callees says so exactly where the limit cut it short.
pub proof fn law_cut_relations_say_so(
    g: GraphV,
    sym: i64,
    mask: u64,
    side: Side,
    limit: nat,
    f: spec_fn(RelatedV) -> Seq<char>,
)
    ensures
        says_so(
            rows::distinct(query::related_all(g, sym, mask, side)).len(),
            query::related_first(g, sym, mask, side, limit).map_values(f),
            limit,
        ),
        query::related_total(g, sym, mask, side) == rows::distinct(
            query::related_all(g, sym, mask, side),
        ).len(),
{
    lemma_sorted_len::<RelatedRow>(rows::distinct(query::related_all(g, sym, mask, side)));
    lemma_says_so(
        query::related_total(g, sym, mask, side),
        query::related_first(g, sym, mask, side, limit).map_values(f),
        limit,
    );
}

/// A section of a hierarchy says so exactly where the limit cut it short, and is
/// left out only where there is nothing to list.
pub proof fn law_cut_sections_say_so(title: Seq<char>, names: Seq<NameV>, limit: nat)
    ensures
        ({
            let lines = rows::first_of(names, limit).map_values(query::name_text());
            &&& says_so(names.len(), lines, limit)
            &&& names.len() > 0 ==> query::section(title, names, limit) == title + " ("@
                + text::dec_nat(lines.len()) + "):\n"@ + query::listing(names.len(), lines)
        }),
{
    lemma_says_so(
        names.len(),
        rows::first_of(names, limit).map_values(query::name_text()),
        limit,
    );
}

/// A list of members says so exactly where the limit cut it short.
pub proof fn law_cut_members_say_so(
    g: GraphV,
    sh: Seq<(Seq<char>, Seq<char>)>,
    sym: i64,
    limit: nat,
)
    ensures
        says_so(
            query::all_members(g, sym).len(),
            query::member_rows(g, sh, sym, limit).map_values(|m: MemberV| m.text),
            limit,
        ),
{
    lemma_sorted_len::<MemberRow>(
        query::members_of(g, sym, limit).map_values(query::member_row(g, sh)),
    );
    lemma_says_so(
        query::all_members(g, sym).len(),
        query::member_rows(g, sh, sym, limit).map_values(|m: MemberV| m.text),
        limit,
    );
}

/// An outline says so exactly where the limit cut it short.
pub proof fn law_cut_outlines_say_so(g: GraphV, file: i64, limit: nat)
    ensures
        says_so(
            query::outline_all(g, file).len(),
            query::outline_rows(g, file, limit).map_values(query::outline_text()),
            limit,
        ),
{
    lemma_sorted_len::<OutlineRow>(query::outline_all(g, file));
    lemma_says_so(
        query::outline_all(g, file).len(),
        query::outline_rows(g, file, limit).map_values(query::outline_text()),
        limit,
    );
}

/// An answer to `find` lists all that fits the question, or the first `limit` of
/// it under a line that says so.
pub proof fn law_cut_finds_say_so(
    g: GraphV,
    sh: Seq<(Seq<char>, Seq<char>)>,
    q: Seq<char>,
    limit: nat,
)
    requires
        !"c:"@.is_prefix_of(q),
        query::fitting(g, q).len() > 0,
    ensures
        ({
            let all = query::fitting(g, q);
            query::found(g, sh, q, limit) == if all.len() > limit {
                cut_line(all.len(), limit) + rows::gather(
                    all.take(limit as int),
                    query::found_block(g, sh),
                )
            } else {
                rows::gather(all, query::found_block(g, sh))
            }
        }),
{
    let all = query::fitting(g, q);
    if all.len() <= limit {
        let r = rows::gather(all, query::found_block(g, sh));
        assert(query::note(all.len(), all.len()) + r =~= r);
    }
}

/// A path is shortened by the first prefix that it starts with, and stays as it
/// is where it starts with none.
pub proof fn law_first_prefix_counts(
    pairs: Seq<(Seq<char>, Seq<char>)>,
    path: Seq<char>,
    k: int,
)
    ensures
        0 <= k < pairs.len() && pairs[k].0.is_prefix_of(path) && (forall|i: int|
            0 <= i < k ==> !(#[trigger] pairs[i]).0.is_prefix_of(path)) ==> query::shortened(
            pairs,
            path,
        ) == pairs[k].1 + path.skip(pairs[k].0.len() as int),
        (forall|i: int| 0 <= i < pairs.len() ==> !(#[trigger] pairs[i]).0.is_prefix_of(path))
            ==> query::shortened(pairs, path) == path,
    decreases pairs.len(),
{
    if pairs.len() > 0 {
        let rest = pairs.drop_first();
        law_first_prefix_counts(rest, path, k - 1);
        assert forall|i: int| 0 <= i < rest.len() implies rest[i] == #[trigger] pairs[i + 1] by {}
        if forall|i: int| 0 <= i < pairs.len() ==> !(#[trigger] pairs[i]).0.is_prefix_of(path) {
            assert(!pairs[0].0.is_prefix_of(path));
            assert forall|i: int| 0 <= i < rest.len() implies !(
            #[trigger] rest[i]).0.is_prefix_of(path) by {
                assert(rest[i] == pairs[i + 1]);
            }
        }
        if 0 < k < pairs.len() && (forall|i: int|
            0 <= i < k ==> !(#[trigger] pairs[i]).0.is_prefix_of(path)) {
            assert(!pairs[0].0.is_prefix_of(path));
            assert(rest[k - 1] == pairs[k]);
            assert forall|i: int| 0 <= i < k - 1 implies !(
            #[trigger] rest[i]).0.is_prefix_of(path) by {
                assert(rest[i] == pairs[i + 1]);
            }
        }
    }
}

// ---- answers and the store ----------------------------------------------

/// The symbol with the USR.
pub open spec fn symbol_of(g: GraphV, usr: Seq<char>) -> Option<SymbolV> {
    db::by_name(g.symbols, usr)
}

/// An occurrence that a record of the store says is in the graph.
proof fn lemma_fact_there(g: GraphV, r: db::RecordV, records: Records, k: int) -> (o: OccRow)
    requires
        growth::sound(g),
        g.records.contains(r),
        mirror::record_true(g, r, records),
        0 <= k < records[r.name].occurrences.len(),
    ensures
        g.occurrences.contains(o),
        o.record_id == r.id,
        growth::fact(g, o) == growth::fact_said(records[r.name].occurrences[k]),
{
    let occs = records[r.name].occurrences;
    let f = growth::pick_fact(g, r.id);
    let y = growth::facts_said(occs)[k];
    assert(growth::facts(g, r.id)[k] == y);
    assert(growth::facts(g, r.id).contains(y));
    rows::lemma_gather_members(g.occurrences, f, y);
    let i = choose|i: int| 0 <= i < g.occurrences.len() && f(#[trigger] g.occurrences[i]).contains(y);
    assert(g.occurrences.contains(g.occurrences[i]));
    g.occurrences[i]
}

/// The symbol and the path of an occurrence of the graph.
proof fn lemma_occurrence_ends(g: GraphV, r: db::RecordV, o: OccRow) -> (s: SymbolV)
    requires
        growth::sound(g),
        g.records.contains(r),
        g.occurrences.contains(o),
        o.record_id == r.id,
    ensures
        g.symbols.contains(s),
        s.id == o.symbol_id,
        s.usr == growth::usr_of(g, o.symbol_id),
        symbol_of(g, s.usr) == Some(s),
        db::by_id(g.files, r.file_id) is Some,
        query::path_of(g, o) == Some(db::by_id(g.files, r.file_id).unwrap().path),
{
    let i = choose|i: int| 0 <= i < g.occurrences.len() && g.occurrences[i] == o;
    assert(db::by_id(g.symbols, g.occurrences[i].symbol_id) is Some);
    growth::lemma_by_id_found(g.symbols, o.symbol_id);
    let s = db::by_id(g.symbols, o.symbol_id).unwrap();
    growth::lemma_by_name_member(g.symbols, s);
    growth::lemma_by_id_member(g.records, r);
    let j = choose|j: int| 0 <= j < g.records.len() && g.records[j] == r;
    assert(db::by_id(g.files, g.records[j].file_id) is Some);
    s
}

/// The record of the graph that a unit of the graph is made of.
proof fn lemma_unit_record(g: GraphV, units: Units, u: db::UnitV, name: Seq<char>) -> (r:
    db::RecordV)
    requires
        growth::sound(g),
        mirror::units_true(g, units),
        g.units.contains(u),
        merge::has_dep(units[u.name].data.deps, name),
    ensures
        g.records.contains(r),
        r.name == name,
{
    let i = choose|i: int| 0 <= i < g.units.len() && g.units[i] == u;
    assert(mirror::unit_true(g, g.units[i], units[u.name]));
    assert(mirror::made_of(g, u.id, name));
    growth::lemma_by_name_found(g.records, name);
    db::by_name(g.records, name).unwrap()
}

/// In a graph that mirrors a store, the list of the occurrences of a symbol has
/// each occurrence of it that the store says, under a path that the store gives.
pub proof fn law_refs_tell_all_that_the_store_says(
    g: GraphV,
    units: Units,
    records: Records,
    u: db::UnitV,
    name: Seq<char>,
    k: int,
)
    requires
        growth::sound(g),
        mirror::units_true(g, units),
        mirror::records_true(g, records),
        g.units.contains(u),
        merge::has_dep(units[u.name].data.deps, name),
        0 <= k < records[name].occurrences.len(),
    ensures
        ({
            let said = growth::fact_said(records[name].occurrences[k]);
            &&& symbol_of(g, said.usr) matches Some(s)
            &&& exists|path: Seq<char>|
                records[name].paths.contains(path) && #[trigger] refs_found(g, s.id).contains(
                    RefV { path, line: said.line, col: said.col, roles: said.roles },
                )
        }),
{
    let r = lemma_unit_record(g, units, u, name);
    let j = choose|j: int| 0 <= j < g.records.len() && g.records[j] == r;
    assert(mirror::record_true(g, g.records[j], records));
    let o = lemma_fact_there(g, r, records, k);
    let s = lemma_occurrence_ends(g, r, o);
    let said = growth::fact_said(records[name].occurrences[k]);
    let path = db::by_id(g.files, r.file_id).unwrap().path;
    let row = RefV { path, line: said.line, col: said.col, roles: said.roles };
    let f = query::pick_ref(g, s.id);
    let i = choose|i: int| 0 <= i < g.occurrences.len() && g.occurrences[i] == o;
    assert(f(g.occurrences[i]) == seq![row]);
    assert(f(g.occurrences[i])[0] == row);
    assert(f(g.occurrences[i]).contains(row));
    rows::lemma_gather_members(g.occurrences, f, row);
    assert(refs_found(g, s.id).contains(row));
}

/// In a graph that mirrors a store, and in which a unit is made of each record,
/// the list of the occurrences of a symbol has only what a record of a unit of
/// the store says.
pub proof fn law_refs_tell_only_what_the_store_says(
    g: GraphV,
    units: Units,
    records: Records,
    s: SymbolV,
    row: RefV,
)
    requires
        growth::sound(g),
        mirror::units_true(g, units),
        mirror::records_true(g, records),
        mirror::all_linked(g),
        g.symbols.contains(s),
        refs_found(g, s.id).contains(row),
    ensures
        exists|unit: Seq<char>, name: Seq<char>, k: int|
            #![trigger units.contains_key(unit), records[name].occurrences[k]]
            {
                let said = growth::fact_said(records[name].occurrences[k]);
                &&& units.contains_key(unit)
                &&& merge::has_dep(units[unit].data.deps, name)
                &&& 0 <= k < records[name].occurrences.len()
                &&& said.usr == s.usr
                &&& said.line == row.line
                &&& said.col == row.col
                &&& said.roles == row.roles
                &&& records[name].paths.contains(row.path)
            },
{
    let f = query::pick_ref(g, s.id);
    rows::lemma_gather_members(g.occurrences, f, row);
    let i = choose|i: int| 0 <= i < g.occurrences.len() && f(#[trigger] g.occurrences[i]).contains(row);
    let o = g.occurrences[i];
    assert(g.occurrences.contains(o));
    let r = db::by_id(g.records, o.record_id).unwrap();
    growth::lemma_by_id_found(g.records, o.record_id);
    let j = choose|j: int| 0 <= j < g.records.len() && g.records[j] == r;
    assert(mirror::record_true(g, g.records[j], records));
    let e = lemma_occurrence_ends(g, r, o);
    growth::lemma_by_id_member(g.symbols, s);
    growth::lemma_by_id_member(g.symbols, e);
    // What the occurrence says is said by the record.
    let occs = records[r.name].occurrences;
    let y = growth::fact(g, o);
    let h = growth::pick_fact(g, r.id);
    assert(h(o) == seq![y]);
    assert(h(o)[0] == y);
    assert(h(g.occurrences[i]).contains(y));
    rows::lemma_gather_members(g.occurrences, h, y);
    assert(growth::facts_said(occs).contains(y));
    let k = choose|k: int|
        0 <= k < growth::facts_said(occs).len() && growth::facts_said(occs)[k] == y;
    assert(growth::fact_said(occs[k]) == y);
    // A unit is made of the record.
    assert(merge::is_linked(g, g.records[j].id));
    let m = choose|m: int| 0 <= m < g.links.len() && (#[trigger] g.links[m]).record_id == r.id;
    let l = g.links[m];
    assert(db::by_id(g.units, g.links[m].unit_id) is Some);
    growth::lemma_by_id_found(g.units, l.unit_id);
    let u = db::by_id(g.units, l.unit_id).unwrap();
    let n = choose|n: int| 0 <= n < g.units.len() && g.units[n] == u;
    assert(mirror::unit_true(g, g.units[n], units[u.name]));
    growth::lemma_by_name_member(g.records, r);
    assert(l == db::LinkRow { unit_id: u.id, record_id: r.id });
    assert(g.links.contains(l));
    assert(mirror::made_of(g, u.id, r.name));
    assert(units.contains_key(u.name));
    assert(records[r.name].occurrences[k] == occs[k]);
}

/// In a graph that mirrors a store, a symbol inside of which another occurs, as
/// the store says, is among the callers of the other. With the mirror law, the
/// other is then among its callees.
pub proof fn law_callers_tell_all_that_the_store_says(
    g: GraphV,
    units: Units,
    records: Records,
    u: db::UnitV,
    name: Seq<char>,
    k: int,
    j: int,
)
    requires
        growth::sound(g),
        mirror::units_true(g, units),
        mirror::records_true(g, records),
        g.units.contains(u),
        merge::has_dep(units[u.name].data.deps, name),
        0 <= k < records[name].occurrences.len(),
        0 <= j < growth::fact_said(records[name].occurrences[k]).relations.len(),
        ffi::has_role(
            growth::fact_said(records[name].occurrences[k]).relations[j].0,
            query::ROLES_INSIDE,
        ),
    ensures
        ({
            let said = growth::fact_said(records[name].occurrences[k]);
            &&& symbol_of(g, said.usr) matches Some(callee)
            &&& symbol_of(g, said.relations[j].1) matches Some(caller)
            &&& exists|path: Seq<char>|
                records[name].paths.contains(path) && #[trigger] query::related_all(
                    g,
                    callee.id,
                    query::ROLES_INSIDE,
                    Side::Occurring,
                ).contains(
                    RelatedV {
                        name: caller.name,
                        kind: caller.kind,
                        usr: caller.usr,
                        path,
                        line: said.line,
                        roles: said.roles,
                    },
                )
        }),
{
    let r = lemma_unit_record(g, units, u, name);
    let q = choose|q: int| 0 <= q < g.records.len() && g.records[q] == r;
    assert(mirror::record_true(g, g.records[q], records));
    let o = lemma_fact_there(g, r, records, k);
    let callee = lemma_occurrence_ends(g, r, o);
    let said = growth::fact_said(records[name].occurrences[k]);
    let path = db::by_id(g.files, r.file_id).unwrap().path;
    // The relation of the graph.
    let f = growth::pick_relation(g, o.id);
    let y = said.relations[j];
    assert(growth::relation_facts(g, o.id)[j] == y);
    assert(growth::relation_facts(g, o.id).contains(y));
    rows::lemma_gather_members(g.relations, f, y);
    let i = choose|i: int| 0 <= i < g.relations.len() && f(#[trigger] g.relations[i]).contains(y);
    let rel = g.relations[i];
    assert(rel.occ_id == o.id);
    assert(db::by_id(g.symbols, rel.symbol_id) is Some);
    growth::lemma_by_id_found(g.symbols, rel.symbol_id);
    let caller = db::by_id(g.symbols, rel.symbol_id).unwrap();
    growth::lemma_by_name_member(g.symbols, caller);
    growth::lemma_by_id_member(g.occurrences, o);
    let row = RelatedV {
        name: caller.name,
        kind: caller.kind,
        usr: caller.usr,
        path,
        line: said.line,
        roles: said.roles,
    };
    let h = query::pick_related(g, callee.id, query::ROLES_INSIDE, Side::Occurring);
    assert(h(rel) == seq![row]);
    assert(h(rel)[0] == row);
    assert(h(g.relations[i]).contains(row));
    rows::lemma_gather_members(g.relations, h, row);
    assert(query::related_all(g, callee.id, query::ROLES_INSIDE, Side::Occurring).contains(row));
}

/// What a merge read is told: after it, the occurrences of a symbol are found
/// that a record of a unit of the store says, unless the main file of the unit is
/// not there any more.
pub proof fn law_what_was_merged_is_told(
    g: GraphV,
    snap: SnapshotV,
    full: bool,
    units: Units,
    records: Records,
    unit: Seq<char>,
    name: Seq<char>,
    k: int,
)
    requires
        laws::faithful(merge::base(g, full), snap, units, records),
        merge::merged(g, snap, full) is Ok,
        units.contains_key(unit),
        !laws::gone(merge::base(g, full), snap.missing_sources, unit),
        !plan::main_missing(units[unit].data, snap.missing_sources),
        merge::has_dep(units[unit].data.deps, name),
        0 <= k < records[name].occurrences.len(),
    ensures
        ({
            let b = merge::merged(g, snap, full)->Ok_0.graph;
            let said = growth::fact_said(records[name].occurrences[k]);
            &&& symbol_of(b, said.usr) matches Some(s)
            &&& exists|path: Seq<char>|
                records[name].paths.contains(path) && #[trigger] refs_found(b, s.id).contains(
                    RefV { path, line: said.line, col: said.col, roles: said.roles },
                )
        }),
{
    let b = merge::merged(g, snap, full)->Ok_0.graph;
    laws::law_merge_mirrors_the_store(g, snap, full, units, records);
    assert(db::by_name(b.units, unit) is Some);
    growth::lemma_by_name_found(b.units, unit);
    let u = db::by_name(b.units, unit).unwrap();
    law_refs_tell_all_that_the_store_says(b, units, records, u, name, k);
}

} // verus!
