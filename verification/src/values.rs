//! What values stand for in contracts: all that they hold.
use vstd::prelude::*;

use crate::cli::{Command, CommandV};
use crate::db::{self, FileRow, Graph, GraphV, RecordRow, SymbolRow, UnitRow};
use crate::ffi::{self, Occurrence, RecordDep, SymInfo};
use crate::merge::{self, MergeError, MergeErrorV};
use crate::query::{MemberRow, NameRow, OutlineRow, Place, RefRow, RelatedRow, Sym};
use crate::rows::Row;
use crate::store::{RecordData, Snapshot, UnitData, UnitStamp};
use crate::text;

verus! {

/// A row of a table stands for its fields.
pub proof fn law_rows_stand_for_their_fields(
    f: FileRow,
    s: SymbolRow,
    r: RecordRow,
    u: UnitRow,
)
    ensures
        f@.id == f.id && f@.path == f.path@,
        s@.id == s.id && s@.usr == s.usr@ && s@.name == s.name@ && s@.kind == s.kind && s@.lang
            == s.lang,
        r@.id == r.id && r@.name == r.name@ && r@.file_id == r.file_id,
        u@.id == u.id && u@.name == u.name@ && u@.main_file_id == u.main_file_id && u@.module_name
            == u.module_name@ && u@.mtime_ns == u.mtime_ns,
{
}

/// A graph stands for its tables, row by row.
pub proof fn law_graphs_stand_for_their_tables(g: Graph)
    ensures
        g@.files.len() == g.files@.len() && forall|i: int|
            0 <= i < g.files@.len() ==> #[trigger] g@.files[i] == g.files@[i]@,
        g@.symbols.len() == g.symbols@.len() && forall|i: int|
            0 <= i < g.symbols@.len() ==> #[trigger] g@.symbols[i] == g.symbols@[i]@,
        g@.records.len() == g.records@.len() && forall|i: int|
            0 <= i < g.records@.len() ==> #[trigger] g@.records[i] == g.records@[i]@,
        g@.units.len() == g.units@.len() && forall|i: int|
            0 <= i < g.units@.len() ==> #[trigger] g@.units[i] == g.units@[i]@,
        g@.links == g.links@,
        g@.occurrences == g.occurrences@,
        g@.relations == g.relations@,
        GraphV::empty().files.len() == 0 && GraphV::empty().symbols.len() == 0
            && GraphV::empty().records.len() == 0 && GraphV::empty().units.len() == 0
            && GraphV::empty().links.len() == 0 && GraphV::empty().occurrences.len() == 0
            && GraphV::empty().relations.len() == 0,
{
}

/// What was read of a store stands for all that was read.
pub proof fn law_readings_stand_for_what_was_read(
    i: SymInfo,
    o: Occurrence,
    d: RecordDep,
    r: RecordData,
)
    ensures
        i@.usr == i.usr@ && i@.name == i.name@ && i@.kind == i.kind && i@.lang == i.lang,
        o@.symbol == o.symbol@ && o@.roles == o.roles && o@.line == o.line && o@.col == o.col,
        o@.relations.len() == o.relations@.len() && forall|k: int|
            0 <= k < o.relations@.len() ==> (#[trigger] o@.relations[k]).0 == o.relations@[k].0
                && o@.relations[k].1 == o.relations@[k].1@,
        d@.name == d.name@ && d@.file_path == d.file_path@ && d@.is_system == d.is_system,
        r@.name == r.name@ && r@.occurrences.len() == r.occurrences@.len() && forall|k: int|
            0 <= k < r.occurrences@.len() ==> #[trigger] r@.occurrences[k] == r.occurrences@[k]@,
{
}

/// What was read of units, and a state of a store, stand for all that was read.
pub proof fn law_states_stand_for_what_was_read(s: UnitStamp, u: UnitData, n: Snapshot)
    ensures
        s@.name == s.name@ && s@.mtime_ns == s.mtime_ns,
        u@.name == u.name@ && u@.module_name == u.module_name@,
        match u.main_file {
            Some(path) => u@.main_file == Some(path@),
            None => u@.main_file is None,
        },
        u@.deps.len() == u.deps@.len() && forall|k: int|
            0 <= k < u.deps@.len() ==> #[trigger] u@.deps[k] == u.deps@[k]@,
        n@.listing.len() == n.listing@.len() && forall|k: int|
            0 <= k < n.listing@.len() ==> #[trigger] n@.listing[k] == n.listing@[k]@,
        n@.units.len() == n.units@.len() && forall|k: int|
            0 <= k < n.units@.len() ==> #[trigger] n@.units[k] == n.units@[k]@,
        n@.records.len() == n.records@.len() && forall|k: int|
            0 <= k < n.records@.len() ==> #[trigger] n@.records[k] == n.records@[k]@,
        n@.missing_sources.len() == n.missing_sources@.len() && forall|k: int|
            0 <= k < n.missing_sources@.len() ==> #[trigger] n@.missing_sources[k]
                == n.missing_sources@[k]@,
{
}

/// A row of an answer stands for its fields.
pub proof fn law_answers_stand_for_their_fields(
    s: Sym,
    p: Place,
    x: RefRow,
    y: RelatedRow,
    n: NameRow,
    m: MemberRow,
    o: OutlineRow,
)
    ensures
        s@.id == s.id && s@.usr == s.usr@ && s@.name == s.name@ && s@.kind == s.kind,
        s.said() == s@,
        p.said().path == p.path@ && p.said().line == p.line,
        x.said().path == x.path@ && x.said().line == x.line && x.said().col == x.col
            && x.said().roles == x.roles,
        y.said().name == y.name@ && y.said().kind == y.kind && y.said().usr == y.usr@
            && y.said().path == y.path@ && y.said().line == y.line && y.said().roles == y.roles,
        n.said().name == n.name@ && n.said().kind == n.kind && n.said().usr == n.usr@,
        m.said().text == m.text@ && m.said().path == m.path@ && m.said().line == m.line,
        o.said().line == o.line && o.said().name == o.name@ && o.said().kind == o.kind
            && o.said().usr == o.usr@,
{
}

/// Commands and errors stand for what they name.
pub proof fn law_commands_and_errors_stand_for_what_they_name(c: Command, e: MergeError)
    ensures
        match c {
            Command::Update { store, db, full } => c@ == (CommandV::Update {
                store: store@,
                db: db@,
                full,
            }),
            Command::Stats { db } => c@ == (CommandV::Stats { db: db@ }),
            Command::Ask { question, db, query, limit } => c@ == (CommandV::Ask {
                question,
                db: db@,
                query: query@,
                limit,
            }),
        },
        match e {
            MergeError::Unit { name } => e@ == (MergeErrorV::Unit { name: name@ }),
            MergeError::Record { unit, name, file_path } => e@ == (MergeErrorV::Record {
                unit: unit@,
                name: name@,
                file_path: file_path@,
            }),
            MergeError::Full => e@ is Full,
        },
{
}

/// A merge that did nothing counted nothing.
pub proof fn law_nothing_is_counted_at_first()
    ensures
        merge::no_stats().units_total == 0,
        merge::no_stats().units_processed == 0,
        merge::no_stats().units_removed == 0,
        merge::no_stats().records_ingested == 0,
        merge::no_stats().records_reused == 0,
        merge::no_stats().occurrences_added == 0,
        merge::no_stats().elapsed_ms == 0,
{
}

// ---- texts of several parts ---------------------------------------------

/// Texts are joined with the separator between any two: those of two lists are the
/// one joined, the separator, and the other joined.
pub proof fn law_texts_are_joined(a: Seq<Seq<char>>, b: Seq<Seq<char>>, sep: Seq<char>)
    requires
        a.len() > 0,
        b.len() > 0,
    ensures
        text::joined(a + b, sep) == text::joined(a, sep) + sep + text::joined(b, sep),
        text::joined(seq![a[0]], sep) == a[0],
        text::joined(Seq::empty(), sep).len() == 0,
    decreases b.len(),
{
    let all = a + b;
    let init = b.drop_last();
    assert(all.drop_last() =~= a + init);
    assert(all.last() == b.last());
    if b.len() == 1 {
        assert(a + init =~= a);
        assert(b[0] == b.last());
    } else {
        law_texts_are_joined(a, init, sep);
        let x = text::joined(a, sep);
        let y = text::joined(init, sep);
        assert((x + sep + y) + sep + b.last() =~= x + sep + (y + sep + b.last()));
    }
}

/// The library that reads stores is looked for under the developer directory,
/// where there is one, at two places, and then under the command line tools.
pub proof fn law_libraries_are_looked_for(dir: Seq<char>)
    ensures
        ({
            let some = ffi::library_places(Some(dir));
            let none = ffi::library_places(None);
            let tools = "/Library/Developer/CommandLineTools/usr/lib/libIndexStore.dylib"@;
            &&& some.len() == 3
            &&& some[0] == dir
                + "/Toolchains/XcodeDefault.xctoolchain/usr/lib/libIndexStore.dylib"@
            &&& some[1] == dir + "/usr/lib/libIndexStore.dylib"@
            &&& some[2] == tools
            &&& none.len() == 1
            &&& none[0] == tools
        }),
{
}

/// Whether the other text stands at the place.
pub open spec fn is_at(t: Seq<char>, k: int, other: Seq<char>) -> bool {
    &&& 0 <= k <= t.len() - other.len()
    &&& forall|i: int| 0 <= i < other.len() ==> t[k + i] == #[trigger] other[i]
}

proof fn lemma_is_at(t: Seq<char>, other: Seq<char>)
    ensures
        other.is_prefix_of(t) <==> is_at(t, 0, other),
{
    if other.is_prefix_of(t) {
        assert(other == t.subrange(0, other.len() as int));
        assert forall|i: int| 0 <= i < other.len() implies t[0 + i] == #[trigger] other[i] by {}
    }
    if is_at(t, 0, other) {
        assert forall|i: int| 0 <= i < other.len() implies t[i] == #[trigger] other[i] by {
            assert(t[0 + i] == other[i]);
        }
        assert(other =~= t.subrange(0, other.len() as int));
    }
}

proof fn lemma_is_at_later(t: Seq<char>, k: int, other: Seq<char>)
    requires
        t.len() > 0,
        0 <= k,
    ensures
        is_at(t.drop_first(), k, other) <==> is_at(t, k + 1, other),
{
    let u = t.drop_first();
    if is_at(u, k, other) {
        assert forall|i: int| 0 <= i < other.len() implies t[k + 1 + i] == #[trigger] other[i] by {
            assert(u[k + i] == other[i]);
        }
    }
    if is_at(t, k + 1, other) {
        assert forall|i: int| 0 <= i < other.len() implies u[k + i] == #[trigger] other[i] by {
            assert(t[k + 1 + i] == other[i]);
        }
    }
}

/// A text is replaced wherever it stands, from the first place on; what does not
/// hold it stays as it is.
pub proof fn law_texts_are_replaced(t: Seq<char>, pat: Seq<char>, rep: Seq<char>, k: int)
    requires
        pat.len() > 0,
    ensures
        (forall|i: int| !#[trigger] is_at(t, i, pat)) ==> text::replaced(t, pat, rep) == t,
        is_at(t, k, pat) && (forall|i: int| 0 <= i < k ==> !#[trigger] is_at(t, i, pat))
            ==> text::replaced(t, pat, rep) == t.take(k) + rep + text::replaced(
            t.skip(k + pat.len()),
            pat,
            rep,
        ),
    decreases t.len(),
{
    if t.len() > 0 {
        let u = t.drop_first();
        lemma_is_at(t, pat);
        law_texts_are_replaced(u, pat, rep, k - 1);
        if forall|i: int| !#[trigger] is_at(t, i, pat) {
            assert forall|i: int| !#[trigger] is_at(u, i, pat) by {
                if 0 <= i {
                    lemma_is_at_later(t, i, pat);
                }
            }
            assert(!is_at(t, 0, pat));
            assert(seq![t[0]] + u =~= t);
        }
        if is_at(t, k, pat) && (forall|i: int| 0 <= i < k ==> !#[trigger] is_at(t, i, pat)) {
            if k == 0 {
                assert(t.take(0) + rep =~= rep);
            } else {
                assert(!is_at(t, 0, pat));
                lemma_is_at_later(t, k - 1, pat);
                assert forall|i: int| 0 <= i < k - 1 implies !#[trigger] is_at(u, i, pat) by {
                    lemma_is_at_later(t, i, pat);
                }
                assert(u.skip(k - 1 + pat.len()) =~= t.skip(k + pat.len()));
                assert(seq![t[0]] + (u.take(k - 1) + rep + text::replaced(
                    t.skip(k + pat.len()),
                    pat,
                    rep,
                )) =~= t.take(k) + rep + text::replaced(t.skip(k + pat.len()), pat, rep));
            }
        }
    }
}

/// A text counts up to its first NUL character.
pub proof fn law_texts_count_up_to_the_first_nul(t: Seq<char>, k: int)
    ensures
        (forall|i: int| 0 <= i < t.len() ==> #[trigger] t[i] != '\0') ==> text::before_nul(t) == t,
        0 <= k < t.len() && t[k] == '\0' && (forall|i: int|
            0 <= i < k ==> #[trigger] t[i] != '\0') ==> text::before_nul(t) == t.take(k),
        text::text_length(t) == text::before_nul(t).len(),
    decreases t.len(),
{
    if t.len() > 0 {
        let u = t.drop_first();
        law_texts_count_up_to_the_first_nul(u, k - 1);
        if t[0] != '\0' {
            if forall|i: int| 0 <= i < t.len() ==> #[trigger] t[i] != '\0' {
                assert forall|i: int| 0 <= i < u.len() implies #[trigger] u[i] != '\0' by {
                    assert(u[i] == t[i + 1]);
                }
                assert(seq![t[0]] + u =~= t);
            }
            if 0 < k < t.len() && t[k] == '\0' && (forall|i: int|
                0 <= i < k ==> #[trigger] t[i] != '\0') {
                assert(u[k - 1] == '\0');
                assert forall|i: int| 0 <= i < k - 1 implies #[trigger] u[i] != '\0' by {
                    assert(u[i] == t[i + 1]);
                }
                assert(seq![t[0]] + u.take(k - 1) =~= t.take(k));
            }
        } else {
            assert(text::before_nul(t) =~= t.take(0));
        }
    } else {
        assert(text::before_nul(t) =~= t);
    }
}

} // verus!
