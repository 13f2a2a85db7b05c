//! The texts of answers as wholes, in terms of the rows of the tables.
use vstd::prelude::*;

use crate::db::{self, FileV, GraphV, HasName};
use crate::meaning;
use crate::naming;
use crate::plain;
use crate::query::{
    self, MemberRow, MemberV, NameV, OutlineRow, OutlineV, Place, PlaceV, RefRow, RefV, RelatedRow,
    RelatedV, Side, SymV,
};
use crate::rows::{self, Ordered};
use crate::text;

verus! {

// ---- lists --------------------------------------------------------------

/// The first of a list, as many as there may be.
pub open spec fn cut<A>(all: Seq<A>, limit: nat) -> Seq<A> {
    if all.len() <= limit {
        all
    } else {
        all.take(limit as int)
    }
}

/// What is said of a list of which not all are shown.
pub open spec fn cut_note(total: nat, limit: nat) -> Seq<char> {
    if total <= limit {
        Seq::empty()
    } else {
        "  ("@ + plain::numeral(total as int) + " total, showing "@ + plain::numeral(limit as int)
            + ")\n"@
    }
}

/// Each text on a line of its own, behind two blanks.
pub open spec fn lines_of(texts: Seq<Seq<char>>) -> Seq<char>
    decreases texts.len(),
{
    if texts.len() == 0 {
        Seq::empty()
    } else {
        "  "@ + texts[0] + "\n"@ + lines_of(texts.drop_first())
    }
}

/// One text after the other.
pub open spec fn concat(texts: Seq<Seq<char>>) -> Seq<char>
    decreases texts.len(),
{
    if texts.len() == 0 {
        Seq::empty()
    } else {
        texts[0] + concat(texts.drop_first())
    }
}

proof fn lemma_lines(lines: Seq<Seq<char>>)
    ensures
        rows::gather(lines, query::indented()) == lines_of(lines),
    decreases lines.len(),
{
    if lines.len() > 0 {
        lemma_lines(lines.drop_first());
    }
}

proof fn lemma_listing(total: nat, lines: Seq<Seq<char>>, limit: nat)
    requires
        lines.len() == if total <= limit {
            total
        } else {
            limit
        },
    ensures
        query::listing(total, lines) == cut_note(total, limit) + lines_of(lines),
{
    lemma_lines(lines);
    plain::law_numbers_are_written_in_decimal(total as int);
    plain::law_numbers_are_written_in_decimal(limit as int);
}

/// Lines are told one below the other, under a line that says how many there are
/// where that is more.
pub proof fn law_lines_are_told(total: nat, lines: Seq<Seq<char>>)
    ensures
        query::listing(total, lines) == cut_note(
            total,
            lines.len(),
        ) + lines_of(lines),
{
    lemma_lines(lines);
    plain::law_numbers_are_written_in_decimal(total as int);
    plain::law_numbers_are_written_in_decimal(lines.len() as int);
}

/// What was found, each once, in its order.
spec fn in_full<T: Ordered>(found: Seq<T::Said>) -> Seq<T::Said> {
    rows::sorted(rows::distinct(found), rows::row_order::<T>())
}

proof fn lemma_in_full<T: Ordered>(found: Seq<T::Said>)
    ensures
        in_full::<T>(found).no_duplicates(),
        in_full::<T>(found).len() == rows::distinct(found).len(),
        forall|x: T::Said| #[trigger] in_full::<T>(found).contains(x) <==> found.contains(x),
        forall|i: int, j: int|
            0 <= i < j < in_full::<T>(found).len() ==> T::not_after(
                #[trigger] in_full::<T>(found)[i],
                #[trigger] in_full::<T>(found)[j],
            ),
{
    let le = rows::row_order::<T>();
    let all = in_full::<T>(found);
    let d = rows::distinct(found);
    rows::law_rows_can_be_ordered::<T>();
    rows::law_sorting_orders(d, le);
    rows::law_lists_hold_what_was_found(found, le, d.len());
    assert(rows::first_of(all, d.len()) == all);
    assert forall|i: int, j: int| 0 <= i < j < all.len() implies T::not_after(
        #[trigger] all[i],
        #[trigger] all[j],
    ) by {
        assert(le(all[i], all[j]));
    }
}

/// What is known of symbol in one line.
pub open spec fn head(name: Seq<char>, kind: int, usr: Seq<char>) -> Seq<char> {
    name + " ["@ + naming::kind(kind) + "] usr: "@ + usr
}

// ---- refs ---------------------------------------------------------------

/// Whether these are the occurrences of the symbol, each once, by path and line.
pub open spec fn are_refs(g: GraphV, sym: i64, all: Seq<RefV>) -> bool {
    &&& all.no_duplicates()
    &&& forall|x: RefV| #[trigger] all.contains(x) <==> meaning::is_ref(g, sym, x)
    &&& forall|i: int, j: int|
        0 <= i < j < all.len() ==> plain::place_not_after(
            (#[trigger] all[i]).path,
            all[i].line as int,
            (#[trigger] all[j]).path,
            all[j].line as int,
        )
}

/// The line about an occurrence.
pub open spec fn ref_line(sh: Seq<(Seq<char>, Seq<char>)>, x: RefV) -> Seq<char> {
    naming::short(sh, x.path) + ":"@ + plain::numeral(x.line as int) + ":"@ + plain::numeral(
        x.col as int,
    ) + " ["@ + naming::roles(x.roles) + "]"@
}

/// Whether the text tells the occurrences of the symbol.
pub open spec fn tells_refs(
    g: GraphV,
    sh: Seq<(Seq<char>, Seq<char>)>,
    s: SymV,
    limit: nat,
    t: Seq<char>,
) -> bool {
    exists|all: Seq<RefV>| #[trigger]
        are_refs(g, s.id, all) && t == head(s.name, s.kind as int, s.usr) + "\noccurrences:\n"@
            + cut_note(all.len(), limit) + lines_of(
            cut(all, limit).map_values(|x: RefV| ref_line(sh, x)),
        )
}

/// The answer to `refs` tells for a symbol every occurrence of it, each once with
/// its path, line, column and roles, by path and line; a limit cuts off the last
/// ones, and then it is said how many there are.
pub proof fn law_refs_are_told(
    g: GraphV,
    sh: Seq<(Seq<char>, Seq<char>)>,
    s: SymV,
    limit: nat,
)
    requires
        g.keyed(),
    ensures
        tells_refs(g, sh, s, limit, query::ref_block(g, sh, limit)(s)),
{
    let found = rows::gather(g.occurrences, query::pick_ref(g, s.id));
    let all = in_full::<RefRow>(found);
    lemma_in_full::<RefRow>(found);
    assert forall|x: RefV| #[trigger] all.contains(x) <==> meaning::is_ref(g, s.id, x) by {
        meaning::lemma_refs(g, s.id, x);
    }
    assert forall|i: int, j: int| 0 <= i < j < all.len() implies plain::place_not_after(
        (#[trigger] all[i]).path,
        all[i].line as int,
        (#[trigger] all[j]).path,
        all[j].line as int,
    ) by {
        let a = all[i];
        let b = all[j];
        assert(RefRow::not_after(a, b));
        plain::law_places_are_ordered_by_path_and_line(a.path, a.line, b.path, b.line);
    }
    assert(are_refs(g, s.id, all));
    let shown = cut(all, limit);
    let lines = shown.map_values(|x: RefV| ref_line(sh, x));
    assert(query::ref_rows(g, s.id, limit).map_values(query::ref_text(sh)) =~= lines) by {
        assert forall|i: int| 0 <= i < shown.len() implies query::ref_text(sh)(#[trigger] shown[i])
            == ref_line(sh, shown[i]) by {
            lemma_ref_line(sh, shown[i]);
        }
    }
    lemma_listing(all.len(), lines, limit);
    naming::law_kinds_have_their_names(s.kind);
    let h = head(s.name, s.kind as int, s.usr) + "\noccurrences:\n"@;
    assert(h + (cut_note(all.len(), limit) + lines_of(lines)) =~= h + cut_note(all.len(), limit)
        + lines_of(lines));
}

proof fn lemma_ref_line(sh: Seq<(Seq<char>, Seq<char>)>, x: RefV)
    ensures
        query::ref_text(sh)(x) == ref_line(sh, x),
{
    naming::law_paths_are_shortened(sh, x.path);
    naming::law_roles_are_told(x.roles);
    plain::law_numbers_are_written_in_decimal(x.line as int);
    plain::law_numbers_are_written_in_decimal(x.col as int);
}

// ---- callers and callees ------------------------------------------------

/// Whether these are the callers, or the callees, of the symbol, each once: calls
/// first, then by path and line.
pub open spec fn are_other_ends(g: GraphV, sym: i64, side: Side, all: Seq<RelatedV>) -> bool {
    &&& all.no_duplicates()
    &&& forall|x: RelatedV| #[trigger] all.contains(x) <==> meaning::is_other_end(g, sym, side, x)
    &&& forall|i: int, j: int|
        0 <= i < j < all.len() ==> call_not_after(#[trigger] all[i], #[trigger] all[j])
}

/// Whether a row is not after another.
pub open spec fn call_not_after(a: RelatedV, b: RelatedV) -> bool {
    if naming::has_bit(a.roles, 0x20) == naming::has_bit(b.roles, 0x20) {
        plain::place_not_after(a.path, a.line as int, b.path, b.line as int)
    } else {
        naming::has_bit(a.roles, 0x20)
    }
}

/// The line about a caller or callee.
pub open spec fn related_line(sh: Seq<(Seq<char>, Seq<char>)>, x: RelatedV) -> Seq<char> {
    x.name + " ["@ + naming::kind(x.kind as int) + "] at "@ + naming::short(sh, x.path) + ":"@
        + plain::numeral(x.line as int) + " ["@ + naming::roles(x.roles) + "]  usr: "@ + x.usr
}

/// A symbol and a line.
pub open spec fn line_key(x: RelatedV) -> Seq<char> {
    x.usr + "@"@ + x.path + ":"@ + plain::numeral(x.line as int)
}

/// Whether these are the symbols and lines of the callers, or callees, each once.
pub open spec fn are_line_keys(g: GraphV, sym: i64, side: Side, keys: Seq<Seq<char>>) -> bool {
    &&& keys.no_duplicates()
    &&& forall|k: Seq<char>| #[trigger]
        keys.contains(k) <==> exists|x: RelatedV| #[trigger]
            meaning::is_other_end(g, sym, side, x) && k == line_key(x)
}

/// Whether the text tells the callers, or callees, of the symbol.
pub open spec fn tells_related(
    g: GraphV,
    sh: Seq<(Seq<char>, Seq<char>)>,
    title: Seq<char>,
    side: Side,
    s: SymV,
    limit: nat,
    t: Seq<char>,
) -> bool {
    exists|all: Seq<RelatedV>, keys: Seq<Seq<char>>| #[trigger]
        are_other_ends(g, s.id, side, all) && #[trigger] are_line_keys(g, s.id, side, keys) && t
            == title + s.name + " ("@ + plain::numeral(keys.len() as int) + ") — usr: "@ + s.usr
            + "\n"@ + cut_note(all.len(), limit) + lines_of(
            cut(all, limit).map_values(|x: RelatedV| related_line(sh, x)),
        )
}

/// The line about a caller or callee tells its line number: rows on different
/// lines that are else the same have different texts.
pub proof fn law_related_lines_tell_line_numbers(
    sh: Seq<(Seq<char>, Seq<char>)>,
    x: RelatedV,
)
    ensures
        query::related_text(sh)(x) == related_line(sh, x),
        plain::is_numeral(plain::numeral(x.line as int), x.line as int),
        forall|y: RelatedV|
            y.name == x.name && y.kind == x.kind && y.usr == x.usr && y.path == x.path && y.roles
                == x.roles && y.line != x.line ==> #[trigger] query::related_text(sh)(y)
                != query::related_text(sh)(x),
{
    lemma_related_line(sh, x);
    plain::law_numbers_are_written_in_decimal(x.line as int);
    assert forall|y: RelatedV|
        y.name == x.name && y.kind == x.kind && y.usr == x.usr && y.path == x.path && y.roles
            == x.roles && y.line != x.line implies #[trigger] query::related_text(sh)(y)
        != query::related_text(sh)(x) by {
        lemma_related_line(sh, y);
        plain::law_numerals_differ(x.line as int, y.line as int);
        let a = x.name + " ["@ + naming::kind(x.kind as int) + "] at "@ + naming::short(sh, x.path)
            + ":"@;
        let b = " ["@ + naming::roles(x.roles) + "]  usr: "@ + x.usr;
        let d = plain::numeral(x.line as int);
        let e = plain::numeral(y.line as int);
        assert(related_line(sh, x) =~= a + d + b);
        assert(related_line(sh, y) =~= a + e + b);
        if related_line(sh, x) == related_line(sh, y) {
            assert(d.len() == e.len());
            assert(d =~= (a + d + b).subrange(a.len() as int, (a.len() + d.len()) as int));
            assert(e =~= (a + e + b).subrange(a.len() as int, (a.len() + e.len()) as int));
        }
    }
}

proof fn lemma_related_line(sh: Seq<(Seq<char>, Seq<char>)>, x: RelatedV)
    ensures
        query::related_text(sh)(x) == related_line(sh, x),
{
    naming::law_paths_are_shortened(sh, x.path);
    naming::law_roles_are_told(x.roles);
    naming::law_kinds_have_their_names(x.kind);
    plain::law_numbers_are_written_in_decimal(x.line as int);
}

proof fn lemma_line_keys(g: GraphV, sym: i64, side: Side)
    requires
        g.keyed(),
    ensures
        are_line_keys(
            g,
            sym,
            side,
            rows::distinct(
                query::related_all(g, sym, query::ROLES_INSIDE, side).map_values(
                    query::related_key(),
                ),
            ),
        ),
{
    let found = query::related_all(g, sym, query::ROLES_INSIDE, side);
    let all = found.map_values(query::related_key());
    let keys = rows::distinct(all);
    rows::law_distinct_leaves_each_once(all);
    assert forall|k: Seq<char>| #[trigger]
        keys.contains(k) <==> exists|x: RelatedV| #[trigger]
            meaning::is_other_end(g, sym, side, x) && k == line_key(x) by {
        assert(keys.contains(k) <==> all.contains(k));
        if all.contains(k) {
            let i = choose|i: int| 0 <= i < all.len() && all[i] == k;
            assert(found.contains(found[i]));
            meaning::lemma_related(g, sym, side, found[i]);
            plain::law_numbers_are_written_in_decimal(found[i].line as int);
            assert(k == line_key(found[i]));
        }
        if exists|x: RelatedV| #[trigger]
            meaning::is_other_end(g, sym, side, x) && k == line_key(x) {
            let x = choose|x: RelatedV| #[trigger]
                meaning::is_other_end(g, sym, side, x) && k == line_key(x);
            meaning::lemma_related(g, sym, side, x);
            let i = choose|i: int| 0 <= i < found.len() && found[i] == x;
            plain::law_numbers_are_written_in_decimal(x.line as int);
            assert(all[i] == k);
        }
    }
}

/// The answer to `callers` or `callees` tells for a symbol every one of them, each
/// once with where it is and in what roles; calls come first, then paths and
/// lines count. A limit cuts off the last ones, and then it is said how many there
/// are.
pub proof fn law_callers_and_callees_are_told(
    g: GraphV,
    sh: Seq<(Seq<char>, Seq<char>)>,
    title: Seq<char>,
    side: Side,
    s: SymV,
    limit: nat,
)
    requires
        g.keyed(),
    ensures
        tells_related(
            g,
            sh,
            title,
            side,
            s,
            limit,
            query::related_block(g, sh, title, side, limit)(s),
        ),
{
    let found = query::related_all(g, s.id, query::ROLES_INSIDE, side);
    let all = in_full::<RelatedRow>(found);
    lemma_in_full::<RelatedRow>(found);
    naming::law_roles_have_their_bits();
    assert forall|x: RelatedV| #[trigger] all.contains(x) <==> meaning::is_other_end(
        g,
        s.id,
        side,
        x,
    ) by {
        meaning::lemma_related(g, s.id, side, x);
    }
    assert forall|i: int, j: int| 0 <= i < j < all.len() implies call_not_after(
        #[trigger] all[i],
        #[trigger] all[j],
    ) by {
        let a = all[i];
        let b = all[j];
        assert(RelatedRow::not_after(a, b));
        plain::law_places_are_ordered_by_path_and_line(a.path, a.line, b.path, b.line);
    }
    assert(are_other_ends(g, s.id, side, all));
    let keys = rows::distinct(found.map_values(query::related_key()));
    lemma_line_keys(g, s.id, side);
    let shown = cut(all, limit);
    let lines = shown.map_values(|x: RelatedV| related_line(sh, x));
    let first = query::related_first(g, s.id, query::ROLES_INSIDE, side, limit);
    assert(first.map_values(query::related_text(sh)) =~= lines) by {
        assert forall|i: int| 0 <= i < shown.len() implies query::related_text(sh)(
            #[trigger] shown[i],
        ) == related_line(sh, shown[i]) by {
            lemma_related_line(sh, shown[i]);
        }
    }
    lemma_listing(all.len(), lines, limit);
    plain::law_numbers_are_written_in_decimal(keys.len() as int);
    let h = title + s.name + " ("@ + plain::numeral(keys.len() as int) + ") — usr: "@ + s.usr
        + "\n"@;
    assert(h + (cut_note(all.len(), limit) + lines_of(lines)) =~= h + cut_note(all.len(), limit)
        + lines_of(lines));
}

// ---- hierarchies --------------------------------------------------------

/// Whether these are the symbols at the other end, each once, in the order in
/// which the relations first tell them.
pub open spec fn are_names(g: GraphV, sym: i64, bit: u64, side: Side, all: Seq<NameV>) -> bool {
    &&& all.no_duplicates()
    &&& forall|x: NameV| #[trigger]
        all.contains(x) <==> meaning::is_named(g, sym, bit, side, x)
    &&& forall|i: int, j: int|
        0 <= i < j < all.len() ==> name_is_first(
            g,
            sym,
            bit,
            side,
            #[trigger] all[i],
            #[trigger] all[j],
        )
}

/// Whether a relation tells `x`, and none up to it tells `y`.
pub open spec fn name_is_first(
    g: GraphV,
    sym: i64,
    bit: u64,
    side: Side,
    x: NameV,
    y: NameV,
) -> bool {
    exists|k: int|
        0 <= k < g.relations.len() && meaning::tells_name(
            g,
            sym,
            bit,
            side,
            #[trigger] g.relations[k],
            x,
        ) && forall|m: int|
            0 <= m <= k ==> !meaning::tells_name(g, sym, bit, side, #[trigger] g.relations[m], y)
}

/// A section with the symbols, where there are any.
pub open spec fn section_told(title: Seq<char>, all: Seq<NameV>, limit: nat) -> Seq<char> {
    if all.len() == 0 {
        Seq::empty()
    } else {
        title + " ("@ + plain::numeral(cut(all, limit).len() as int) + "):\n"@ + cut_note(
            all.len(),
            limit,
        ) + lines_of(
            cut(all, limit).map_values(|x: NameV| head(x.name, x.kind as int, x.usr)),
        )
    }
}

/// Whether the text tells the bases, the derived, what is overridden, what
/// overrides, and the specializations of the symbol. A base occurs related to the
/// class that has it, a method that overrides occurs related to the overridden
/// one, and a specialization occurs related to what it specializes.
pub open spec fn tells_hierarchy(g: GraphV, s: SymV, limit: nat, t: Seq<char>) -> bool {
    exists|
        bases: Seq<NameV>,
        derived: Seq<NameV>,
        overridden: Seq<NameV>,
        overriding: Seq<NameV>,
        special: Seq<NameV>,
    |
        {
            &&& #[trigger] are_names(g, s.id, 0x400, Side::Related, bases)
            &&& #[trigger] are_names(g, s.id, 0x400, Side::Occurring, derived)
            &&& #[trigger] are_names(g, s.id, 0x800, Side::Occurring, overridden)
            &&& #[trigger] are_names(g, s.id, 0x800, Side::Related, overriding)
            &&& #[trigger] are_names(g, s.id, 0x40000, Side::Related, special)
            &&& t == head(s.name, s.kind as int, s.usr) + "\n"@ + section_told(
                "bases"@,
                bases,
                limit,
            ) + section_told("derived"@, derived, limit) + section_told(
                "overrides (this overrides)"@,
                overridden,
                limit,
            ) + section_told("overridden-by"@, overriding, limit) + section_told(
                "specializations"@,
                special,
                limit,
            )
        }
}

proof fn lemma_names_told(
    g: GraphV,
    sym: i64,
    bit: u64,
    side: Side,
    title: Seq<char>,
    limit: nat,
)
    requires
        g.keyed(),
    ensures
        are_names(g, sym, bit, side, query::related_names(g, sym, bit, side)),
        query::section(title, query::related_names(g, sym, bit, side), limit) == section_told(
            title,
            query::related_names(g, sym, bit, side),
            limit,
        ),
{
    let found = rows::gather(g.relations, query::pick_name(g, sym, bit, side));
    let all = query::related_names(g, sym, bit, side);
    rows::law_distinct_leaves_each_once(found);
    assert forall|x: NameV| #[trigger] all.contains(x) <==> meaning::is_named(
        g,
        sym,
        bit,
        side,
        x,
    ) by {
        meaning::lemma_names(g, sym, bit, side, x);
    }
    let h = query::pick_name(g, sym, bit, side);
    rows::law_distinct_keeps_the_order(found);
    assert forall|i: int, j: int| 0 <= i < j < all.len() implies name_is_first(
        g,
        sym,
        bit,
        side,
        #[trigger] all[i],
        #[trigger] all[j],
    ) by {
        assert(rows::comes_first(found, all[i], all[j]));
        let k = rows::lemma_gather_first(g.relations, h, all[i], all[j]);
        assert(g.relations.contains(g.relations[k]));
        meaning::lemma_name_row(g, sym, bit, side, g.relations[k], all[i]);
        assert forall|m: int| 0 <= m <= k implies !meaning::tells_name(
            g,
            sym,
            bit,
            side,
            #[trigger] g.relations[m],
            all[j],
        ) by {
            assert(g.relations.contains(g.relations[m]));
            meaning::lemma_name_row(g, sym, bit, side, g.relations[m], all[j]);
        }
    }
    let shown = cut(all, limit);
    let lines = shown.map_values(|x: NameV| head(x.name, x.kind as int, x.usr));
    assert(shown.map_values(query::name_text()) =~= lines) by {
        assert forall|i: int| 0 <= i < shown.len() implies query::name_text()(#[trigger] shown[i])
            == head(shown[i].name, shown[i].kind as int, shown[i].usr) by {
            naming::law_kinds_have_their_names(shown[i].kind);
        }
    }
    lemma_listing(all.len(), lines, limit);
    plain::law_numbers_are_written_in_decimal(shown.len() as int);
    let h = title + " ("@ + plain::numeral(shown.len() as int) + "):\n"@;
    assert(h + (cut_note(all.len(), limit) + lines_of(lines)) =~= h + cut_note(all.len(), limit)
        + lines_of(lines));
}

/// The answer to `hierarchy` tells for a symbol every base, derived class,
/// overridden and overriding method and specialization.
pub proof fn law_hierarchies_are_told(g: GraphV, s: SymV, limit: nat)
    requires
        g.keyed(),
    ensures
        tells_hierarchy(g, s, limit, query::hierarchy_block(g, limit)(s)),
{
    naming::law_roles_have_their_bits();
    naming::law_kinds_have_their_names(s.kind);
    lemma_names_told(g, s.id, 0x400, Side::Related, "bases"@, limit);
    lemma_names_told(g, s.id, 0x400, Side::Occurring, "derived"@, limit);
    lemma_names_told(g, s.id, 0x800, Side::Occurring, "overrides (this overrides)"@, limit);
    lemma_names_told(g, s.id, 0x800, Side::Related, "overridden-by"@, limit);
    lemma_names_told(g, s.id, 0x40000, Side::Related, "specializations"@, limit);
}

// ---- places of definition -----------------------------------------------

/// Whether these are the places where the symbol is defined, each once, by path.
pub open spec fn are_places(g: GraphV, sym: i64, all: Seq<PlaceV>) -> bool {
    &&& all.no_duplicates()
    &&& forall|x: PlaceV| #[trigger] all.contains(x) <==> meaning::is_defined_at(g, sym, x)
    &&& forall|i: int, j: int|
        0 <= i < j < all.len() ==> plain::not_after(
            (#[trigger] all[i]).path,
            (#[trigger] all[j]).path,
        )
}

/// A place, as text.
pub open spec fn place_line(sh: Seq<(Seq<char>, Seq<char>)>, x: PlaceV) -> Seq<char> {
    naming::short(sh, x.path) + ":"@ + plain::numeral(x.line as int)
}

spec fn places_of(g: GraphV, sym: i64) -> Seq<PlaceV> {
    in_full::<Place>(rows::gather(g.occurrences, query::pick_definition(g, sym)))
}

proof fn lemma_places(g: GraphV, sym: i64, limit: nat)
    requires
        g.keyed(),
    ensures
        are_places(g, sym, places_of(g, sym)),
        query::definition_places(g, sym, limit) == cut(places_of(g, sym), limit),
{
    let found = rows::gather(g.occurrences, query::pick_definition(g, sym));
    let all = places_of(g, sym);
    lemma_in_full::<Place>(found);
    assert forall|x: PlaceV| #[trigger] all.contains(x) <==> meaning::is_defined_at(g, sym, x) by {
        meaning::lemma_definitions(g, sym, x);
    }
    assert forall|i: int, j: int| 0 <= i < j < all.len() implies plain::not_after(
        (#[trigger] all[i]).path,
        (#[trigger] all[j]).path,
    ) by {
        assert(Place::not_after(all[i], all[j]));
        plain::law_texts_are_ordered_by_characters(all[i].path, all[j].path);
    }
}

proof fn lemma_place_line(sh: Seq<(Seq<char>, Seq<char>)>, x: PlaceV)
    ensures
        query::place_text(sh, x) == place_line(sh, x),
{
    naming::law_paths_are_shortened(sh, x.path);
    plain::law_numbers_are_written_in_decimal(x.line as int);
}

/// The places with a bar between any two.
pub open spec fn barred(texts: Seq<Seq<char>>) -> Seq<char>
    decreases texts.len(),
{
    if texts.len() == 0 {
        Seq::empty()
    } else if texts.len() == 1 {
        texts[0]
    } else {
        barred(texts.drop_last()) + " | "@ + texts[texts.len() - 1]
    }
}

proof fn lemma_barred(texts: Seq<Seq<char>>)
    ensures
        text::joined(texts, " | "@) == barred(texts),
    decreases texts.len(),
{
    if texts.len() > 1 {
        lemma_barred(texts.drop_last());
    }
}

/// Whether the text tells the places where a symbol is defined, at most three.
pub open spec fn tells_places(
    g: GraphV,
    sh: Seq<(Seq<char>, Seq<char>)>,
    sym: i64,
    at: Seq<char>,
) -> bool {
    exists|all: Seq<PlaceV>| #[trigger]
        are_places(g, sym, all) && at == if all.len() == 0 {
            "(no definition indexed)"@
        } else {
            barred(cut(all, 3).map_values(|x: PlaceV| place_line(sh, x)))
        }
}

/// Whether the text tells the symbol: its name, kind, places of definition and
/// USR.
pub open spec fn tells_symbol(
    g: GraphV,
    sh: Seq<(Seq<char>, Seq<char>)>,
    s: SymV,
    t: Seq<char>,
) -> bool {
    exists|at: Seq<char>| #[trigger]
        tells_places(g, sh, s.id, at) && t == s.name + " ["@ + naming::kind(s.kind as int) + "] "@
            + at + "\n  usr: "@ + s.usr
}

/// A headline tells the name and kind of a symbol, where it is defined, three
/// places at most, the first by their paths, and its USR.
pub proof fn law_headlines_tell_symbols(g: GraphV, sh: Seq<(Seq<char>, Seq<char>)>, s: SymV)
    requires
        g.keyed(),
    ensures
        tells_symbol(g, sh, s, query::headline(g, sh, s)),
{
    let all = places_of(g, s.id);
    lemma_places(g, s.id, 3);
    let shown = cut(all, 3);
    let lines = shown.map_values(|x: PlaceV| place_line(sh, x));
    assert(query::definition_texts(g, sh, s.id, 3) =~= lines) by {
        assert forall|i: int| 0 <= i < shown.len() implies query::place_text(sh, #[trigger] shown[i])
            == place_line(sh, shown[i]) by {
            lemma_place_line(sh, shown[i]);
        }
    }
    lemma_barred(lines);
    let at = if all.len() == 0 {
        "(no definition indexed)"@
    } else {
        barred(lines)
    };
    assert(tells_places(g, sh, s.id, at));
    naming::law_kinds_have_their_names(s.kind);
}

/// The texts of the places where a symbol is defined are those of the first of
/// them, by path.
pub proof fn law_places_of_definition_are_told(
    g: GraphV,
    sh: Seq<(Seq<char>, Seq<char>)>,
    sym: i64,
    limit: nat,
)
    requires
        g.keyed(),
    ensures
        exists|all: Seq<PlaceV>| #[trigger]
            are_places(g, sym, all) && query::definition_texts(g, sh, sym, limit) == cut(
                all,
                limit,
            ).map_values(|x: PlaceV| place_line(sh, x)),
{
    let all = places_of(g, sym);
    lemma_places(g, sym, limit);
    let shown = cut(all, limit);
    assert(query::definition_texts(g, sh, sym, limit) =~= shown.map_values(
        |x: PlaceV| place_line(sh, x),
    )) by {
        assert forall|i: int| 0 <= i < shown.len() implies query::place_text(sh, #[trigger] shown[i])
            == place_line(sh, shown[i]) by {
            lemma_place_line(sh, shown[i]);
        }
    }
}

// ---- members ------------------------------------------------------------

/// Whether these are the members of the symbol, each once, in the order in which
/// the relations first tell them.
pub open spec fn are_members(g: GraphV, sym: i64, all: Seq<SymV>) -> bool {
    &&& all.no_duplicates()
    &&& forall|x: SymV| #[trigger] all.contains(x) <==> meaning::is_member(g, sym, x)
    &&& forall|i: int, j: int|
        0 <= i < j < all.len() ==> member_is_first(g, sym, #[trigger] all[i], #[trigger] all[j])
}

/// Whether a relation tells `x`, and none up to it tells `y`.
pub open spec fn member_is_first(g: GraphV, sym: i64, x: SymV, y: SymV) -> bool {
    exists|k: int|
        0 <= k < g.relations.len() && meaning::tells_member(g, sym, #[trigger] g.relations[k], x)
            && forall|m: int|
            0 <= m <= k ==> !meaning::tells_member(g, sym, #[trigger] g.relations[m], y)
}

proof fn lemma_members_first(g: GraphV, sym: i64)
    requires
        g.keyed(),
    ensures
        are_members(g, sym, query::all_members(g, sym)),
{
    let h = query::pick_member(g, sym);
    let found = rows::gather(g.relations, h);
    let all = query::all_members(g, sym);
    rows::law_distinct_leaves_each_once(found);
    assert forall|x: SymV| #[trigger] all.contains(x) <==> meaning::is_member(g, sym, x) by {
        meaning::lemma_members(g, sym, x);
    }
    rows::law_distinct_keeps_the_order(found);
    assert forall|i: int, j: int| 0 <= i < j < all.len() implies member_is_first(
        g,
        sym,
        #[trigger] all[i],
        #[trigger] all[j],
    ) by {
        assert(rows::comes_first(found, all[i], all[j]));
        let k = rows::lemma_gather_first(g.relations, h, all[i], all[j]);
        assert(g.relations.contains(g.relations[k]));
        meaning::lemma_member_row(g, sym, g.relations[k], all[i]);
        assert forall|m: int| 0 <= m <= k implies !meaning::tells_member(
            g,
            sym,
            #[trigger] g.relations[m],
            all[j],
        ) by {
            assert(g.relations.contains(g.relations[m]));
            meaning::lemma_member_row(g, sym, g.relations[m], all[j]);
        }
    }
}

/// Whether the row tells the member, and where it is first defined, by path.
pub open spec fn is_member_row(
    g: GraphV,
    sh: Seq<(Seq<char>, Seq<char>)>,
    m: SymV,
    row: MemberV,
) -> bool {
    exists|all: Seq<PlaceV>| #[trigger]
        are_places(g, m.id, all) && if all.len() == 0 {
            row == MemberV {
                text: m.name + " ["@ + naming::kind(m.kind as int) + "] (decl only)  usr: "@
                    + m.usr,
                path: "(decl only)"@,
                line: 0,
            }
        } else {
            row == MemberV {
                text: m.name + " ["@ + naming::kind(m.kind as int) + "] "@ + place_line(sh, all[0])
                    + "  usr: "@ + m.usr,
                path: naming::short(sh, all[0].path),
                line: all[0].line,
            }
        }
}

proof fn lemma_member_row(g: GraphV, sh: Seq<(Seq<char>, Seq<char>)>, m: SymV)
    requires
        g.keyed(),
    ensures
        is_member_row(g, sh, m, query::member_row(g, sh)(m)),
{
    let all = places_of(g, m.id);
    lemma_places(g, m.id, 1);
    naming::law_kinds_have_their_names(m.kind);
    if all.len() == 0 {
        reveal_strlit("] ");
        reveal_strlit("(decl only)");
        reveal_strlit("  usr: ");
        reveal_strlit("] (decl only)  usr: ");
        assert("] (decl only)  usr: "@ =~= "] "@ + "(decl only)"@ + "  usr: "@);
        assert(query::member_row(g, sh)(m).text =~= m.name + " ["@ + naming::kind(m.kind as int)
            + "] (decl only)  usr: "@ + m.usr);
    } else {
        assert(cut(all, 1)[0] == all[0]);
        lemma_place_line(sh, all[0]);
        naming::law_paths_are_shortened(sh, all[0].path);
    }
}

/// Sorting what is made of elements is making it of elements that are sorted.
proof fn lemma_sorted_made<A, B>(s: Seq<A>, f: spec_fn(A) -> B, le: spec_fn(B, B) -> bool)
    ensures
        rows::sorted(s.map_values(f), le) == rows::sorted(
            s,
            |a: A, b: A| le(f(a), f(b)),
        ).map_values(f),
    decreases s.len(),
{
    let le2 = |a: A, b: A| le(f(a), f(b));
    if s.len() == 0 {
        assert(s.map_values(f) =~= Seq::<B>::empty());
        assert(rows::sorted(s, le2).map_values(f) =~= Seq::<B>::empty());
    } else {
        let init = s.drop_last();
        lemma_sorted_made(init, f, le);
        assert(s.map_values(f).drop_last() =~= init.map_values(f));
        assert(s.map_values(f).last() == f(s.last()));
        lemma_insert_made(rows::sorted(init, le2), s.last(), f, le);
    }
}

proof fn lemma_insert_made<A, B>(s: Seq<A>, x: A, f: spec_fn(A) -> B, le: spec_fn(B, B) -> bool)
    ensures
        rows::insert_by(s.map_values(f), f(x), le) == rows::insert_by(
            s,
            x,
            |a: A, b: A| le(f(a), f(b)),
        ).map_values(f),
    decreases s.len(),
{
    let le2 = |a: A, b: A| le(f(a), f(b));
    let t = s.map_values(f);
    if s.len() == 0 || le(f(s.last()), f(x)) {
        assert(t.push(f(x)) =~= s.push(x).map_values(f));
    } else {
        let init = s.drop_last();
        lemma_insert_made(init, x, f, le);
        assert(t.drop_last() =~= init.map_values(f));
        assert(t.last() == f(s.last()));
        let r = rows::insert_by(init, x, le2);
        assert(r.push(s.last()).map_values(f) =~= r.map_values(f).push(f(s.last())));
    }
}

/// Whether the text tells the members of the symbol, by where they are first
/// defined: paths, then lines.
pub open spec fn tells_members(
    g: GraphV,
    sh: Seq<(Seq<char>, Seq<char>)>,
    s: SymV,
    limit: nat,
    t: Seq<char>,
) -> bool {
    exists|all: Seq<SymV>, shown: Seq<SymV>, rows: Seq<MemberV>|
        {
            &&& #[trigger] are_members(g, s.id, all)
            &&& #[trigger] are_member_rows(g, sh, shown, rows)
            &&& shown.to_multiset() == cut(all, limit).to_multiset()
            &&& t == "members of "@ + s.name + " ["@ + naming::kind(s.kind as int) + "] ("@
                + plain::numeral(shown.len() as int) + ") — usr: "@ + s.usr + "\n"@ + cut_note(
                all.len(),
                limit,
            ) + lines_of(rows.map_values(|r: MemberV| r.text))
        }
}

/// Whether the rows tell the members, and are in the order of paths and lines.
pub open spec fn are_member_rows(
    g: GraphV,
    sh: Seq<(Seq<char>, Seq<char>)>,
    shown: Seq<SymV>,
    rows: Seq<MemberV>,
) -> bool {
    &&& rows.len() == shown.len()
    &&& forall|i: int|
        0 <= i < rows.len() ==> is_member_row(g, sh, #[trigger] shown[i], rows[i])
    &&& forall|i: int, j: int|
        0 <= i < j < rows.len() ==> plain::place_not_after(
            (#[trigger] rows[i]).path,
            rows[i].line as int,
            (#[trigger] rows[j]).path,
            rows[j].line as int,
        )
}

/// The answer to `members` tells for a symbol every member of it, but for those
/// that the reflection macros add, in the order of where they are first defined.
pub proof fn law_members_are_told(
    g: GraphV,
    sh: Seq<(Seq<char>, Seq<char>)>,
    s: SymV,
    limit: nat,
)
    requires
        g.keyed(),
    ensures
        tells_members(g, sh, s, limit, query::members_block(g, sh, limit)(s)),
{
    broadcast use vstd::seq_lib::group_to_multiset_ensures;

    let all = query::all_members(g, s.id);
    lemma_members_first(g, s.id);
    let some = cut(all, limit);
    let f = query::member_row(g, sh);
    let le = rows::row_order::<MemberRow>();
    let le2 = |a: SymV, b: SymV| le(f(a), f(b));
    let shown = rows::sorted(some, le2);
    let listed = query::member_rows(g, sh, s.id, limit);
    lemma_sorted_made(some, f, le);
    assert(listed == shown.map_values(f));
    rows::law_rows_can_be_ordered::<MemberRow>();
    rows::law_sorting_orders(some.map_values(f), le);
    assert(rows::is_order(le2)) by {
        assert forall|a: SymV, b: SymV| #[trigger] le2(a, b) || le2(b, a) by {
            assert(le(f(a), f(b)) || le(f(b), f(a)));
        }
        assert forall|a: SymV, b: SymV, c: SymV| #[trigger]
            le2(a, b) && #[trigger] le2(b, c) implies le2(a, c) by {
            assert(le(f(a), f(b)) && le(f(b), f(c)));
        }
    }
    rows::law_sorting_orders(some, le2);
    assert forall|i: int| 0 <= i < listed.len() implies is_member_row(
        g,
        sh,
        #[trigger] shown[i],
        listed[i],
    ) by {
        lemma_member_row(g, sh, shown[i]);
    }
    assert forall|i: int, j: int| 0 <= i < j < listed.len() implies plain::place_not_after(
        (#[trigger] listed[i]).path,
        listed[i].line as int,
        (#[trigger] listed[j]).path,
        listed[j].line as int,
    ) by {
        let a = listed[i];
        let b = listed[j];
        assert(le(a, b));
        plain::law_places_are_ordered_by_path_and_line(a.path, a.line, b.path, b.line);
    }
    assert(are_member_rows(g, sh, shown, listed));
    let lines = listed.map_values(|r: MemberV| r.text);
    lemma_listing(all.len(), lines, limit);
    naming::law_kinds_have_their_names(s.kind);
    plain::law_numbers_are_written_in_decimal(shown.len() as int);
    let h = "members of "@ + s.name + " ["@ + naming::kind(s.kind as int) + "] ("@
        + plain::numeral(shown.len() as int) + ") — usr: "@ + s.usr + "\n"@;
    assert(h + (cut_note(all.len(), limit) + lines_of(lines)) =~= h + cut_note(all.len(), limit)
        + lines_of(lines));
    assert(query::members_of(g, s.id, limit) == some);
    let t = query::members_block(g, sh, limit)(s);
    assert(t == h + cut_note(all.len(), limit) + lines_of(lines));
}

// ---- outlines -----------------------------------------------------------

/// Whether these are the symbols that the file declares or defines, each once, by
/// their first lines.
pub open spec fn are_outlined(g: GraphV, file: i64, all: Seq<OutlineV>) -> bool {
    &&& all.no_duplicates()
    &&& forall|x: OutlineV| #[trigger] all.contains(x) <==> meaning::is_outlined(g, file, x)
    &&& forall|i: int, j: int|
        0 <= i < j < all.len() ==> (#[trigger] all[i]).line <= (#[trigger] all[j]).line
}

/// A line of an outline.
pub open spec fn outline_line(x: OutlineV) -> Seq<char> {
    plain::numeral(x.line as int) + ": "@ + x.name + " ["@ + naming::kind(x.kind as int)
        + "]  usr: "@ + x.usr
}

/// Whether the text tells what the file declares and defines.
pub open spec fn tells_outline(
    g: GraphV,
    sh: Seq<(Seq<char>, Seq<char>)>,
    f: FileV,
    limit: nat,
    t: Seq<char>,
) -> bool {
    exists|all: Seq<OutlineV>| #[trigger]
        are_outlined(g, f.id, all) && t == "outline of "@ + naming::short(sh, f.path) + " ("@
            + plain::numeral(cut(all, limit).len() as int) + " symbols):\n"@ + cut_note(
            all.len(),
            limit,
        ) + lines_of(cut(all, limit).map_values(|x: OutlineV| outline_line(x)))
}

/// A file tells of no symbol twice.
proof fn lemma_outline_once(g: GraphV, file: i64, n: int)
    requires
        g.keyed(),
        0 <= n <= g.symbols.len(),
    ensures
        rows::gather(g.symbols.take(n), query::pick_outline(g, file)).no_duplicates(),
        forall|x: OutlineV| #[trigger]
            rows::gather(g.symbols.take(n), query::pick_outline(g, file)).contains(x) ==> exists|
                i: int,
            |
                0 <= i < n && (#[trigger] g.symbols[i]).usr == x.usr,
    decreases n,
{
    let f = query::pick_outline(g, file);
    let r = rows::gather(g.symbols.take(n), f);
    assert forall|x: OutlineV| #[trigger] r.contains(x) implies exists|i: int|
        0 <= i < n && (#[trigger] g.symbols[i]).usr == x.usr by {
        let t = g.symbols.take(n);
        rows::lemma_gather_members(t, f, x);
        let i = choose|i: int| 0 <= i < t.len() && f(#[trigger] t[i]).contains(x);
        assert(t[i] == g.symbols[i]);
        assert(g.symbols[i].usr == x.usr);
    }
    if n > 0 {
        lemma_outline_once(g, file, n - 1);
        let s = g.symbols[n - 1];
        let before = rows::gather(g.symbols.take(n - 1), f);
        assert(g.symbols.take(n) =~= g.symbols.take(n - 1) + seq![s]);
        rows::lemma_gather_concat(g.symbols.take(n - 1), seq![s], f);
        reveal_with_fuel(rows::gather, 2);
        assert(rows::gather(seq![s], f) =~= f(s));
        assert(r == before + f(s));
        assert forall|i: int, j: int|
            0 <= i < r.len() && 0 <= j < r.len() && i != j implies r[i] != r[j] by {
            let (a, b) = if i < j {
                (i, j)
            } else {
                (j, i)
            };
            if b < before.len() {
                assert(before[a] != before[b]);
            } else {
                assert(a < before.len());
                assert(before.contains(before[a]));
                let k = choose|k: int|
                    0 <= k < n - 1 && (#[trigger] g.symbols[k]).usr == before[a].usr;
                db::lemma_by_name(g.symbols, k);
                db::lemma_by_name(g.symbols, n - 1);
                assert(g.symbols[k].key() != g.symbols[n - 1].key());
            }
        }
    }
}

proof fn lemma_outline_line(x: OutlineV)
    ensures
        query::outline_text()(x) == outline_line(x),
{
    naming::law_kinds_have_their_names(x.kind);
    plain::law_numbers_are_written_in_decimal(x.line as int);
}

/// The outline of a file tells every symbol that the file declares or defines,
/// but for parameters and what the reflection macros add, each once, by first
/// lines: no line number is before a lesser one. A limit cuts off the last ones,
/// and then it is said how many there are.
pub proof fn law_outlines_are_told(
    g: GraphV,
    sh: Seq<(Seq<char>, Seq<char>)>,
    f: FileV,
    limit: nat,
)
    requires
        g.keyed(),
    ensures
        tells_outline(g, sh, f, limit, query::outline_block(g, sh, limit)(f)),
{
    broadcast use vstd::seq_lib::group_to_multiset_ensures;

    let found = query::outline_all(g, f.id);
    let le = rows::row_order::<OutlineRow>();
    let all = rows::sorted(found, le);
    lemma_outline_once(g, f.id, g.symbols.len() as int);
    assert(g.symbols.take(g.symbols.len() as int) =~= g.symbols);
    rows::law_rows_can_be_ordered::<OutlineRow>();
    rows::law_sorting_orders(found, le);
    found.lemma_multiset_has_no_duplicates();
    all.lemma_multiset_has_no_duplicates_conv();
    assert forall|x: OutlineV| #[trigger] all.contains(x) <==> meaning::is_outlined(
        g,
        f.id,
        x,
    ) by {
        meaning::lemma_outlined(g, f.id, x);
        assert(all.to_multiset().count(x) == found.to_multiset().count(x));
    }
    assert forall|i: int, j: int| 0 <= i < j < all.len() implies (#[trigger] all[i]).line <= (
    #[trigger] all[j]).line by {
        assert(le(all[i], all[j]));
    }
    assert(are_outlined(g, f.id, all));
    let shown = cut(all, limit);
    let lines = shown.map_values(|x: OutlineV| outline_line(x));
    assert(shown.map_values(query::outline_text()) =~= lines) by {
        assert forall|i: int| 0 <= i < shown.len() implies query::outline_text()(
            #[trigger] shown[i],
        ) == outline_line(shown[i]) by {
            lemma_outline_line(shown[i]);
        }
    }
    lemma_listing(all.len(), lines, limit);
    naming::law_paths_are_shortened(sh, f.path);
    plain::law_numbers_are_written_in_decimal(shown.len() as int);
    let h = "outline of "@ + naming::short(sh, f.path) + " ("@ + plain::numeral(
        shown.len() as int,
    ) + " symbols):\n"@;
    assert(h + (cut_note(all.len(), limit) + lines_of(lines)) =~= h + cut_note(all.len(), limit)
        + lines_of(lines));
}

} // verus!
