//! What a question stands for, and what it is answered with, in terms of the rows
//! of the tables.
use vstd::prelude::*;

use crate::answers;
use crate::cli::{self, Question};
use crate::db::{FileRow, FileV, GraphV, HasId, SymbolV};
use crate::merge::{self, MergeStats};
use crate::naming;
use crate::plain;
use crate::query::{self, Side, Sym, SymV};
use crate::rows;
use crate::telling;
use crate::text;
use crate::wording;

verus! {

// ---- what fits a question -----------------------------------------------

/// Whether the symbol is one of the graph.
pub open spec fn is_symbol(g: GraphV, x: SymV) -> bool {
    exists|s: SymbolV| #[trigger]
        g.symbols.contains(s) && x.id == s.id && x.usr == s.usr && x.name == s.name && x.kind
            == s.kind
}

/// Whether the question is a scoped name.
pub open spec fn is_scoped(q: Seq<char>) -> bool {
    (exists|k: int| naming::colons_at(q, k)) && text::scope_parts(q).len() > 0
}

/// A part of a scoped name as a USR holds it: a container between two signs, the
/// name behind one.
pub open spec fn piece(parts: Seq<Seq<char>>, i: int) -> Seq<char> {
    if i == parts.len() - 1 {
        "@"@ + parts[i]
    } else {
        "@"@ + parts[i] + "@"@
    }
}

/// The parts of a scoped name as a USR holds them.
pub open spec fn pieces(parts: Seq<Seq<char>>) -> Seq<Seq<char>> {
    Seq::new(parts.len(), |i: int| piece(parts, i))
}

/// Whether the USR holds the parts of a scoped name in their order.
pub open spec fn is_in_scope(usr: Seq<char>, parts: Seq<Seq<char>>) -> bool {
    exists|places: Seq<int>| plain::stand_at(usr, places, pieces(parts))
}

/// Whether the graph has a symbol of the name.
pub open spec fn has_named(g: GraphV, name: Seq<char>) -> bool {
    exists|s: SymbolV| #[trigger] g.symbols.contains(s) && s.name == name
}

/// Whether the symbol fits the question: it has the USR; or it has the name, in
/// the scope; or it has the name; or, where no symbol has the name, its name holds
/// the question.
pub open spec fn is_fit(g: GraphV, q: Seq<char>, x: SymV) -> bool {
    &&& is_symbol(g, x)
    &&& if naming::starts(q, "c:"@) {
        x.usr == q
    } else if is_scoped(q) {
        x.name == text::scope_parts(q).last() && is_in_scope(x.usr, text::scope_parts(q))
    } else if has_named(g, q) {
        x.name == q
    } else {
        exists|k: int| plain::stands_at(x.name, k, q)
    }
}

/// Whether the question asks for a part of a name.
pub open spec fn asks_for_part(g: GraphV, q: Seq<char>) -> bool {
    !naming::starts(q, "c:"@) && !is_scoped(q) && !has_named(g, q)
}

/// Whether the text holds no NUL character.
pub open spec fn has_no_nul(t: Seq<char>) -> bool {
    forall|i: int| 0 <= i < t.len() ==> #[trigger] t[i] != '\0'
}

/// Whether these are the symbols that fit the question, each once: those that are
/// found by a part of their names with the shorter names first, others by their
/// ids.
pub open spec fn are_fits(g: GraphV, q: Seq<char>, all: Seq<SymV>) -> bool {
    &&& all.no_duplicates()
    &&& forall|x: SymV| #[trigger] all.contains(x) <==> is_fit(g, q, x)
    &&& forall|i: int, j: int|
        0 <= i < j < all.len() ==> fit_not_after(g, q, #[trigger] all[i], #[trigger] all[j])
}

/// Whether a symbol that fits the question is not after another.
pub open spec fn fit_not_after(g: GraphV, q: Seq<char>, a: SymV, b: SymV) -> bool {
    if asks_for_part(g, q) {
        &&& text::text_length(a.name) <= text::text_length(b.name)
        &&& has_no_nul(a.name) && has_no_nul(b.name) ==> a.name.len() <= b.name.len()
    } else {
        a.id < b.id
    }
}

proof fn lemma_symbols(g: GraphV, p: spec_fn(SymbolV) -> bool, n: int)
    requires
        g.keyed(),
        0 <= n <= g.symbols.len(),
    ensures
        ({
            let r = rows::gather(g.symbols.take(n), query::pick_symbol(p));
            &&& forall|x: SymV| #[trigger]
                r.contains(x) <==> exists|k: int|
                    0 <= k < n && p(#[trigger] g.symbols[k]) && x == query::sym_of(g.symbols[k])
            &&& forall|i: int, j: int|
                0 <= i < j < r.len() ==> (#[trigger] r[i]).id < (#[trigger] r[j]).id
        }),
    decreases n,
{
    let f = query::pick_symbol(p);
    let r = rows::gather(g.symbols.take(n), f);
    let t = g.symbols.take(n);
    assert forall|x: SymV| #[trigger] r.contains(x) <==> exists|k: int|
        0 <= k < n && p(#[trigger] g.symbols[k]) && x == query::sym_of(g.symbols[k]) by {
        rows::lemma_gather_members(t, f, x);
        if r.contains(x) {
            let k = choose|k: int| 0 <= k < t.len() && f(#[trigger] t[k]).contains(x);
            assert(t[k] == g.symbols[k]);
        }
        if exists|k: int|
            0 <= k < n && p(#[trigger] g.symbols[k]) && x == query::sym_of(g.symbols[k]) {
            let k = choose|k: int|
                0 <= k < n && p(#[trigger] g.symbols[k]) && x == query::sym_of(g.symbols[k]);
            assert(t[k] == g.symbols[k]);
            assert(f(t[k])[0] == x);
            assert(f(t[k]).contains(x));
        }
    }
    if n > 0 {
        lemma_symbols(g, p, n - 1);
        let s = g.symbols[n - 1];
        let before = rows::gather(g.symbols.take(n - 1), f);
        assert(t =~= g.symbols.take(n - 1) + seq![s]);
        rows::lemma_gather_concat(g.symbols.take(n - 1), seq![s], f);
        reveal_with_fuel(rows::gather, 2);
        assert(rows::gather(seq![s], f) =~= f(s));
        assert(r == before + f(s));
        assert forall|i: int, j: int| 0 <= i < j < r.len() implies (#[trigger] r[i]).id < (
        #[trigger] r[j]).id by {
            if j < before.len() {
                assert(before[i].id < before[j].id);
            } else {
                assert(before.contains(before[i]));
                let k = choose|k: int|
                    0 <= k < n - 1 && p(#[trigger] g.symbols[k]) && before[i] == query::sym_of(
                        g.symbols[k],
                    );
                assert(g.symbols[k].rid() < g.symbols[n - 1].rid());
            }
        }
    }
}

proof fn lemma_found(g: GraphV, p: spec_fn(SymbolV) -> bool)
    requires
        g.keyed(),
    ensures
        ({
            let r = query::symbols_where(g, p);
            &&& r.no_duplicates()
            &&& forall|x: SymV| #[trigger]
                r.contains(x) <==> exists|s: SymbolV| #[trigger]
                    g.symbols.contains(s) && p(s) && x == query::sym_of(s)
            &&& forall|i: int, j: int|
                0 <= i < j < r.len() ==> (#[trigger] r[i]).id < (#[trigger] r[j]).id
        }),
{
    let n = g.symbols.len() as int;
    let r = query::symbols_where(g, p);
    assert(g.symbols.take(n) =~= g.symbols);
    lemma_symbols(g, p, n);
    assert forall|i: int, j: int|
        0 <= i < r.len() && 0 <= j < r.len() && i != j implies r[i] != r[j] by {
        if i < j {
            assert(r[i].id < r[j].id);
        } else {
            assert(r[j].id < r[i].id);
        }
    }
    assert forall|x: SymV| #[trigger] r.contains(x) <==> exists|s: SymbolV| #[trigger]
        g.symbols.contains(s) && p(s) && x == query::sym_of(s) by {
        if r.contains(x) {
            let k = choose|k: int|
                0 <= k < n && p(#[trigger] g.symbols[k]) && x == query::sym_of(g.symbols[k]);
            assert(g.symbols.contains(g.symbols[k]));
        }
        if exists|s: SymbolV| #[trigger] g.symbols.contains(s) && p(s) && x == query::sym_of(s) {
            let s = choose|s: SymbolV| #[trigger]
                g.symbols.contains(s) && p(s) && x == query::sym_of(s);
            let k = choose|k: int| 0 <= k < n && g.symbols[k] == s;
            assert(p(g.symbols[k]));
        }
    }
}

proof fn lemma_no_nul(t: Seq<char>)
    requires
        has_no_nul(t),
    ensures
        text::text_length(t) == t.len(),
    decreases t.len(),
{
    if t.len() > 0 {
        assert(t[0] != '\0');
        let u = t.drop_first();
        assert forall|i: int| 0 <= i < u.len() implies #[trigger] u[i] != '\0' by {
            assert(u[i] == t[i + 1]);
        }
        lemma_no_nul(u);
    }
}

proof fn lemma_in_scope(usr: Seq<char>, parts: Seq<Seq<char>>)
    ensures
        query::holds_scope(usr, parts) <==> is_in_scope(usr, parts),
{
    assert(query::scope_pieces(parts) =~= pieces(parts));
    plain::law_texts_hold_parts_in_order(usr, pieces(parts));
}

proof fn lemma_fits_of(g: GraphV, q: Seq<char>, p: spec_fn(SymbolV) -> bool)
    requires
        g.keyed(),
        !asks_for_part(g, q),
        forall|s: SymbolV| #[trigger]
            g.symbols.contains(s) ==> (p(s) <==> is_fit(g, q, query::sym_of(s))),
    ensures
        are_fits(g, q, query::symbols_where(g, p)),
{
    let r = query::symbols_where(g, p);
    lemma_found(g, p);
    assert forall|x: SymV| #[trigger] r.contains(x) <==> is_fit(g, q, x) by {
        lemma_fit_rows(g, q, p, x);
    }
}

proof fn lemma_fit_rows(g: GraphV, q: Seq<char>, p: spec_fn(SymbolV) -> bool, x: SymV)
    requires
        g.keyed(),
        forall|s: SymbolV| #[trigger]
            g.symbols.contains(s) ==> (p(s) <==> is_fit(g, q, query::sym_of(s))),
    ensures
        query::symbols_where(g, p).contains(x) <==> is_fit(g, q, x),
{
    lemma_found(g, p);
    if query::symbols_where(g, p).contains(x) {
        let s = choose|s: SymbolV| #[trigger]
            g.symbols.contains(s) && p(s) && x == query::sym_of(s);
        assert(is_fit(g, q, query::sym_of(s)));
    }
    if is_fit(g, q, x) {
        let s = choose|s: SymbolV| #[trigger]
            g.symbols.contains(s) && x.id == s.id && x.usr == s.usr && x.name == s.name && x.kind
                == s.kind;
        assert(x == query::sym_of(s));
        assert(p(s));
    }
}

proof fn lemma_fits_by_part(g: GraphV, q: Seq<char>)
    requires
        g.keyed(),
        asks_for_part(g, q),
    ensures
        are_fits(g, q, query::with_name_like(g, q)),
{
    broadcast use vstd::seq_lib::group_to_multiset_ensures;

    let p = |s: SymbolV| text::holds_nocase(s.name, q);
    let found = query::symbols_where(g, p);
    let le = rows::row_order::<Sym>();
    let all = query::with_name_like(g, q);
    lemma_found(g, p);
    rows::law_rows_can_be_ordered::<Sym>();
    rows::law_sorting_orders(found, le);
    found.lemma_multiset_has_no_duplicates();
    all.lemma_multiset_has_no_duplicates_conv();
    assert forall|s: SymbolV| #[trigger] g.symbols.contains(s) implies (p(s) <==> is_fit(
        g,
        q,
        query::sym_of(s),
    )) by {
        plain::law_texts_hold_their_parts(s.name, q);
        assert(is_symbol(g, query::sym_of(s)));
    }
    assert forall|x: SymV| #[trigger] all.contains(x) <==> is_fit(g, q, x) by {
        lemma_fit_rows(g, q, p, x);
        assert(all.to_multiset().count(x) == found.to_multiset().count(x));
    }
    assert forall|i: int, j: int| 0 <= i < j < all.len() implies fit_not_after(
        g,
        q,
        #[trigger] all[i],
        #[trigger] all[j],
    ) by {
        assert(le(all[i], all[j]));
        if has_no_nul(all[i].name) && has_no_nul(all[j].name) {
            lemma_no_nul(all[i].name);
            lemma_no_nul(all[j].name);
        }
    }
}

proof fn lemma_named(g: GraphV, q: Seq<char>)
    requires
        g.keyed(),
    ensures
        query::with_name(g, q).len() > 0 <==> has_named(g, q),
{
    let p = |s: SymbolV| s.name == q;
    let r = query::with_name(g, q);
    lemma_found(g, p);
    if r.len() > 0 {
        assert(r.contains(r[0]));
        let s = choose|s: SymbolV| #[trigger]
            g.symbols.contains(s) && p(s) && r[0] == query::sym_of(s);
        assert(g.symbols.contains(s) && s.name == q);
    }
    if has_named(g, q) {
        let s = choose|s: SymbolV| #[trigger] g.symbols.contains(s) && s.name == q;
        assert(p(s));
        assert(r.contains(query::sym_of(s)));
    }
}

/// A question stands for all symbols that fit it or, unless it is a USR, for the
/// first of them.
pub proof fn law_questions_stand_for_what_fits(g: GraphV, q: Seq<char>, limit: nat)
    requires
        g.keyed(),
    ensures
        are_fits(g, q, query::fitting(g, q)),
        query::resolved(g, q, limit) == if naming::starts(q, "c:"@) {
            query::fitting(g, q)
        } else {
            telling::cut(query::fitting(g, q), limit)
        },
{
    naming::lemma_starts(q, "c:"@);
    naming::law_scopes_are_split_at_colons(q);
    lemma_named(g, q);
    let parts = text::scope_parts(q);
    let by_usr = |s: SymbolV| s.usr == q;
    let by_scope = |s: SymbolV| s.name == parts.last() && query::holds_scope(s.usr, parts);
    let by_name = |s: SymbolV| s.name == q;
    if naming::starts(q, "c:"@) {
        assert forall|s: SymbolV| #[trigger] g.symbols.contains(s) implies (by_usr(s) <==> is_fit(
            g,
            q,
            query::sym_of(s),
        )) by {
            assert(is_symbol(g, query::sym_of(s)));
        }
        lemma_fits_of(g, q, by_usr);
    } else if is_scoped(q) {
        assert forall|s: SymbolV| #[trigger] g.symbols.contains(s) implies (by_scope(s) <==> is_fit(
            g,
            q,
            query::sym_of(s),
        )) by {
            assert(is_symbol(g, query::sym_of(s)));
            lemma_in_scope(s.usr, parts);
        }
        lemma_fits_of(g, q, by_scope);
    } else if has_named(g, q) {
        assert forall|s: SymbolV| #[trigger] g.symbols.contains(s) implies (by_name(s) <==> is_fit(
            g,
            q,
            query::sym_of(s),
        )) by {
            assert(is_symbol(g, query::sym_of(s)));
        }
        lemma_fits_of(g, q, by_name);
    } else {
        lemma_fits_by_part(g, q);
    }
}

// ---- many ---------------------------------------------------------------

/// Whether the text is the line about a symbol in a list of many: what a headline
/// tells, on one line. This is of symbols whose headline has no other line break
/// than the one before the USR.
pub open spec fn tells_candidate(
    g: GraphV,
    sh: Seq<(Seq<char>, Seq<char>)>,
    s: SymV,
    t: Seq<char>,
) -> bool {
    exists|at: Seq<char>| #[trigger]
        telling::tells_places(g, sh, s.id, at) && ({
            let front = s.name + " ["@ + naming::kind(s.kind as int) + "] "@ + at;
            !front.contains('\n') && !s.usr.contains('\n') ==> t == "  "@ + front + "  usr: "@
                + s.usr + "\n"@
        })
}

proof fn lemma_replaced_once(front: Seq<char>, pat: Seq<char>, rep: Seq<char>, tail: Seq<char>)
    requires
        pat.len() > 0,
        !front.contains(pat[0]),
        !tail.contains(pat[0]),
    ensures
        text::replaced(front + pat + tail, pat, rep) == front + rep + tail,
    decreases front.len(),
{
    let t = front + pat + tail;
    if front.len() == 0 {
        assert(t.subrange(0, pat.len() as int) =~= pat);
        assert(pat.is_prefix_of(t));
        assert(t.skip(pat.len() as int) =~= tail);
        wording::lemma_replaced_none(tail, pat, rep);
        assert(front + rep + tail =~= rep + tail);
    } else {
        let rest = front.drop_first();
        assert(front.contains(front[0]));
        if pat.is_prefix_of(t) {
            assert(pat == t.subrange(0, pat.len() as int));
            assert(pat[0] == t[0]);
        }
        if rest.contains(pat[0]) {
            let i = choose|i: int| 0 <= i < rest.len() && rest[i] == pat[0];
            assert(front[i + 1] == pat[0]);
        }
        assert(t.drop_first() =~= rest + pat + tail);
        lemma_replaced_once(rest, pat, rep, tail);
        assert(seq![t[0]] + (rest + rep + tail) =~= front + rep + tail);
    }
}

/// A list of many symbols has for each of them a line that tells its name, kind,
/// places of definition and USR.
pub proof fn law_candidates_are_told(g: GraphV, sh: Seq<(Seq<char>, Seq<char>)>, s: SymV)
    requires
        g.keyed(),
    ensures
        tells_candidate(g, sh, s, query::candidate_line(g, sh)(s)),
{
    telling::law_headlines_tell_symbols(g, sh, s);
    let line = query::headline(g, sh, s);
    let at = choose|at: Seq<char>| #[trigger]
        telling::tells_places(g, sh, s.id, at) && line == s.name + " ["@ + naming::kind(
            s.kind as int,
        ) + "] "@ + at + "\n  usr: "@ + s.usr;
    let front = s.name + " ["@ + naming::kind(s.kind as int) + "] "@ + at;
    if !front.contains('\n') && !s.usr.contains('\n') {
        reveal_strlit("\n  usr:");
        reveal_strlit("  usr:");
        reveal_strlit("\n  usr: ");
        reveal_strlit("  usr: ");
        let pat = "\n  usr:"@;
        let rep = "  usr:"@;
        let tail = seq![' '] + s.usr;
        assert("\n  usr: "@ =~= pat + seq![' ']);
        assert("  usr: "@ =~= rep + seq![' ']);
        assert(line =~= front + pat + tail);
        if tail.contains('\n') {
            let k = choose|k: int| 0 <= k < tail.len() && tail[k] == '\n';
            assert(s.usr[k - 1] == '\n');
        }
        lemma_replaced_once(front, pat, rep, tail);
        assert(query::candidate_line(g, sh)(s) =~= "  "@ + front + "  usr: "@ + s.usr + "\n"@);
    }
}

// ---- what is answered ---------------------------------------------------

/// Whether the kind is one that has members.
pub open spec fn has_members(kind: int) -> bool {
    kind == 2 || kind == 5 || kind == 6 || kind == 7 || kind == 8 || kind == 10
}

/// Those of the symbols that can have members.
pub open spec fn with_members(syms: Seq<SymV>) -> Seq<SymV>
    decreases syms.len(),
{
    if syms.len() == 0 {
        Seq::empty()
    } else if has_members(syms[0].kind as int) {
        seq![syms[0]] + with_members(syms.drop_first())
    } else {
        with_members(syms.drop_first())
    }
}

proof fn lemma_with_members(syms: Seq<SymV>)
    ensures
        rows::gather(syms, query::pick_container()) == with_members(syms),
    decreases syms.len(),
{
    if syms.len() > 0 {
        lemma_with_members(syms.drop_first());
        assert(Seq::<SymV>::empty() + with_members(syms.drop_first()) =~= with_members(
            syms.drop_first(),
        ));
    }
}

/// The symbols that a question is answered for, of those that it stands for. A
/// question for members is answered for those that can have members, where there
/// are any.
pub open spec fn answered_for(question: Question, syms: Seq<SymV>) -> Seq<SymV> {
    if question == Question::Members && with_members(syms).len() > 0 {
        with_members(syms)
    } else {
        syms
    }
}

/// Whether the text answers the question for the symbol.
pub open spec fn tells(
    g: GraphV,
    sh: Seq<(Seq<char>, Seq<char>)>,
    question: Question,
    s: SymV,
    limit: nat,
    t: Seq<char>,
) -> bool {
    match question {
        Question::Find => exists|line: Seq<char>| #[trigger]
            telling::tells_symbol(g, sh, s, line) && t == line + "\n"@,
        Question::Refs => telling::tells_refs(g, sh, s, limit, t),
        Question::Callers => telling::tells_related(
            g,
            sh,
            "callers/referencers of "@,
            Side::Occurring,
            s,
            limit,
            t,
        ),
        Question::Callees => telling::tells_related(
            g,
            sh,
            "callees/uses inside "@,
            Side::Related,
            s,
            limit,
            t,
        ),
        Question::Hierarchy => telling::tells_hierarchy(g, s, limit, t),
        Question::Members => telling::tells_members(g, sh, s, limit, t),
        Question::Outline => false,
    }
}

/// Whether the texts answer the question for the symbols, one for each.
pub open spec fn tell_each(
    g: GraphV,
    sh: Seq<(Seq<char>, Seq<char>)>,
    question: Question,
    syms: Seq<SymV>,
    limit: nat,
    texts: Seq<Seq<char>>,
) -> bool {
    texts.len() == syms.len() && forall|i: int|
        0 <= i < syms.len() ==> tells(g, sh, question, #[trigger] syms[i], limit, texts[i])
}

/// Whether the texts are the lines about the symbols, one for each.
pub open spec fn are_candidates(
    g: GraphV,
    sh: Seq<(Seq<char>, Seq<char>)>,
    syms: Seq<SymV>,
    texts: Seq<Seq<char>>,
) -> bool {
    texts.len() == syms.len() && forall|i: int|
        0 <= i < syms.len() ==> tells_candidate(g, sh, #[trigger] syms[i], texts[i])
}

/// One text after the other is what is collected.
proof fn lemma_concat<A>(s: Seq<A>, f: spec_fn(A) -> Seq<char>)
    ensures
        rows::gather(s, f) == telling::concat(s.map_values(f)),
    decreases s.len(),
{
    if s.len() > 0 {
        lemma_concat(s.drop_first(), f);
        assert(s.map_values(f).drop_first() =~= s.drop_first().map_values(f));
    }
}

/// The symbols that a question about symbols stands for: at most thirty, unless it
/// is a USR.
pub open spec fn stood_for(q: Seq<char>, all: Seq<SymV>) -> Seq<SymV> {
    if naming::starts(q, "c:"@) {
        all
    } else {
        telling::cut(all, 30)
    }
}

/// Whether the text is made of the texts for the symbols: of answers for each where
/// there are at most five, of a list of them where there are more. Where there are
/// none, it says so.
pub open spec fn is_answer(
    g: GraphV,
    sh: Seq<(Seq<char>, Seq<char>)>,
    question: Question,
    q: Seq<char>,
    limit: nat,
    syms: Seq<SymV>,
    texts: Seq<Seq<char>>,
    t: Seq<char>,
) -> bool {
    if syms.len() == 0 {
        t == "no symbols match: "@ + q
    } else if syms.len() <= 5 {
        &&& tell_each(g, sh, question, answered_for(question, syms), limit, texts)
        &&& t == telling::concat(texts)
    } else {
        &&& are_candidates(g, sh, syms, texts)
        &&& t == "ambiguous ("@ + plain::numeral(syms.len() as int)
            + " matches, showing 30 max) — narrow with Class::Member or a USR:\n"@
            + telling::concat(texts)
    }
}

/// Whether the text answers a question about symbols.
pub open spec fn answers_question(
    g: GraphV,
    sh: Seq<(Seq<char>, Seq<char>)>,
    question: Question,
    q: Seq<char>,
    limit: nat,
    t: Seq<char>,
) -> bool {
    exists|all: Seq<SymV>, texts: Seq<Seq<char>>|
        are_fits(g, q, all) && #[trigger] is_answer(
            g,
            sh,
            question,
            q,
            limit,
            stood_for(q, all),
            texts,
            t,
        )
}

proof fn lemma_tells(
    g: GraphV,
    sh: Seq<(Seq<char>, Seq<char>)>,
    question: Question,
    s: SymV,
    limit: nat,
)
    requires
        g.keyed(),
        question != Question::Outline,
    ensures
        tells(g, sh, question, s, limit, block_of(g, sh, question, limit)(s)),
{
    match question {
        Question::Find => {
            telling::law_headlines_tell_symbols(g, sh, s);
        },
        Question::Refs => {
            telling::law_refs_are_told(g, sh, s, limit);
        },
        Question::Callers => {
            telling::law_callers_and_callees_are_told(
                g,
                sh,
                "callers/referencers of "@,
                Side::Occurring,
                s,
                limit,
            );
        },
        Question::Callees => {
            telling::law_callers_and_callees_are_told(
                g,
                sh,
                "callees/uses inside "@,
                Side::Related,
                s,
                limit,
            );
        },
        Question::Hierarchy => {
            telling::law_hierarchies_are_told(g, s, limit);
        },
        Question::Members => {
            telling::law_members_are_told(g, sh, s, limit);
        },
        Question::Outline => {},
    }
}

spec fn block_of(
    g: GraphV,
    sh: Seq<(Seq<char>, Seq<char>)>,
    question: Question,
    limit: nat,
) -> spec_fn(SymV) -> Seq<char> {
    match question {
        Question::Find => query::found_block(g, sh),
        Question::Refs => query::ref_block(g, sh, limit),
        Question::Callers => query::related_block(
            g,
            sh,
            "callers/referencers of "@,
            Side::Occurring,
            limit,
        ),
        Question::Callees => query::related_block(
            g,
            sh,
            "callees/uses inside "@,
            Side::Related,
            limit,
        ),
        Question::Hierarchy => query::hierarchy_block(g, limit),
        _ => query::members_block(g, sh, limit),
    }
}

proof fn lemma_tell_each(
    g: GraphV,
    sh: Seq<(Seq<char>, Seq<char>)>,
    question: Question,
    syms: Seq<SymV>,
    limit: nat,
)
    requires
        g.keyed(),
        question != Question::Outline,
    ensures
        tell_each(
            g,
            sh,
            question,
            syms,
            limit,
            syms.map_values(block_of(g, sh, question, limit)),
        ),
        rows::gather(syms, block_of(g, sh, question, limit)) == telling::concat(
            syms.map_values(block_of(g, sh, question, limit)),
        ),
{
    let f = block_of(g, sh, question, limit);
    lemma_concat(syms, f);
    assert forall|i: int| 0 <= i < syms.len() implies tells(
        g,
        sh,
        question,
        #[trigger] syms[i],
        limit,
        syms.map_values(f)[i],
    ) by {
        lemma_tells(g, sh, question, syms[i], limit);
    }
}

/// A question about symbols, asked with any of its words, is answered for each
/// symbol that it stands for where these are few, with a list of them where they
/// are many, and with that there are none where there are none.
pub proof fn law_questions_are_answered(
    g: GraphV,
    sh: Seq<(Seq<char>, Seq<char>)>,
    question: Question,
    q: Seq<char>,
    limit: nat,
)
    requires
        g.keyed(),
        question != Question::Find,
        question != Question::Outline,
    ensures
        answers_question(g, sh, question, q, limit, cli::answered(g, sh, question, q, limit)),
{
    let all = query::fitting(g, q);
    law_questions_stand_for_what_fits(g, q, 30);
    let syms = stood_for(q, all);
    assert(query::resolved(g, q, 30) == syms);
    let t = cli::answered(g, sh, question, q, limit);
    let f = block_of(g, sh, question, limit);
    if syms.len() == 0 {
        assert(is_answer(g, sh, question, q, limit, syms, Seq::empty(), t));
    } else if syms.len() <= 5 {
        let some = answered_for(question, syms);
        lemma_with_members(syms);
        lemma_tell_each(g, sh, question, some, limit);
        assert(t == rows::gather(some, f));
        assert(is_answer(g, sh, question, q, limit, syms, some.map_values(f), t));
    } else {
        let c = query::candidate_line(g, sh);
        let texts = syms.map_values(c);
        lemma_concat(syms, c);
        assert forall|i: int| 0 <= i < syms.len() implies tells_candidate(
            g,
            sh,
            #[trigger] syms[i],
            texts[i],
        ) by {
            law_candidates_are_told(g, sh, syms[i]);
        }
        plain::law_numbers_are_written_in_decimal(syms.len() as int);
        assert(are_candidates(g, sh, syms, texts));
        assert(is_answer(g, sh, question, q, limit, syms, texts, t));
    }
}

/// The symbols that `find` shows.
pub open spec fn shown_by_find(q: Seq<char>, all: Seq<SymV>, limit: nat) -> Seq<SymV> {
    if naming::starts(q, "c:"@) {
        all
    } else {
        telling::cut(all, limit)
    }
}

/// Whether the text answers `find`: with the symbols that fit, or the first of
/// them under a line that says how many there are.
pub open spec fn answers_find(
    g: GraphV,
    sh: Seq<(Seq<char>, Seq<char>)>,
    q: Seq<char>,
    limit: nat,
    t: Seq<char>,
) -> bool {
    exists|all: Seq<SymV>, texts: Seq<Seq<char>>|
        are_fits(g, q, all) && #[trigger] tell_each(
            g,
            sh,
            Question::Find,
            shown_by_find(q, all, limit),
            limit,
            texts,
        ) && t == if all.len() == 0 {
            "no symbols match: "@ + q
        } else if naming::starts(q, "c:"@) {
            telling::concat(texts)
        } else {
            telling::cut_note(all.len(), limit) + telling::concat(texts)
        }
}

/// `find` is answered with every symbol that fits the question, or with the first
/// of them and how many there are.
pub proof fn law_finds_are_answered(
    g: GraphV,
    sh: Seq<(Seq<char>, Seq<char>)>,
    q: Seq<char>,
    limit: nat,
)
    requires
        g.keyed(),
    ensures
        answers_find(g, sh, q, limit, cli::answered(g, sh, Question::Find, q, limit)),
{
    let all = query::fitting(g, q);
    law_questions_stand_for_what_fits(g, q, limit);
    let syms = query::resolved(g, q, limit);
    lemma_tell_each(g, sh, Question::Find, syms, limit);
    let texts = syms.map_values(block_of(g, sh, Question::Find, limit));
    assert(syms == shown_by_find(q, all, limit));
    assert(Seq::<char>::empty() + telling::concat(texts) =~= telling::concat(texts));
    plain::law_numbers_are_written_in_decimal(all.len() as int);
    plain::law_numbers_are_written_in_decimal(syms.len() as int);
}

// ---- files --------------------------------------------------------------

/// Whether these are the files whose paths hold the text, each once, the shorter
/// paths first.
pub open spec fn are_files(g: GraphV, q: Seq<char>, all: Seq<FileV>) -> bool {
    &&& all.no_duplicates()
    &&& forall|f: FileV| #[trigger]
        all.contains(f) <==> g.files.contains(f) && exists|k: int| plain::stands_at(f.path, k, q)
    &&& forall|i: int, j: int|
        0 <= i < j < all.len() ==> path_not_longer(#[trigger] all[i], #[trigger] all[j])
}

/// Whether the path of a file is not longer than that of another.
pub open spec fn path_not_longer(a: FileV, b: FileV) -> bool {
    &&& text::text_length(a.path) <= text::text_length(b.path)
    &&& has_no_nul(a.path) && has_no_nul(b.path) ==> a.path.len() <= b.path.len()
}

/// Whether the texts tell what the files declare and define, one for each.
pub open spec fn outline_each(
    g: GraphV,
    sh: Seq<(Seq<char>, Seq<char>)>,
    files: Seq<FileV>,
    limit: nat,
    texts: Seq<Seq<char>>,
) -> bool {
    texts.len() == files.len() && forall|i: int|
        0 <= i < files.len() ==> telling::tells_outline(
            g,
            sh,
            #[trigger] files[i],
            limit,
            texts[i],
        )
}

/// Whether the text answers `outline`, with four files at most.
pub open spec fn answers_outline(
    g: GraphV,
    sh: Seq<(Seq<char>, Seq<char>)>,
    q: Seq<char>,
    limit: nat,
    t: Seq<char>,
) -> bool {
    exists|all: Seq<FileV>, texts: Seq<Seq<char>>|
        are_files(g, q, all) && #[trigger] outline_each(
            g,
            sh,
            telling::cut(all, 4),
            limit,
            texts,
        ) && t == if all.len() == 0 {
            "no indexed file matches: "@ + q
        } else {
            telling::concat(texts)
        }
}

proof fn lemma_files_once(g: GraphV, q: Seq<char>, n: int)
    requires
        g.keyed(),
        0 <= n <= g.files.len(),
    ensures
        rows::gather(g.files.take(n), query::pick_file(q)).no_duplicates(),
    decreases n,
{
    let h = query::pick_file(q);
    if n > 0 {
        lemma_files_once(g, q, n - 1);
        let f = g.files[n - 1];
        let t = g.files.take(n - 1);
        let before = rows::gather(t, h);
        let r = rows::gather(g.files.take(n), h);
        assert(g.files.take(n) =~= t + seq![f]);
        rows::lemma_gather_concat(t, seq![f], h);
        reveal_with_fuel(rows::gather, 2);
        assert(rows::gather(seq![f], h) =~= h(f));
        assert(r == before + h(f));
        assert forall|i: int, j: int|
            0 <= i < r.len() && 0 <= j < r.len() && i != j implies r[i] != r[j] by {
            let (a, b) = if i < j {
                (i, j)
            } else {
                (j, i)
            };
            if b < before.len() {
                assert(before[a] != before[b]);
            } else {
                assert(before.contains(before[a]));
                rows::lemma_gather_members(t, h, before[a]);
                let k = choose|k: int| 0 <= k < t.len() && h(#[trigger] t[k]).contains(before[a]);
                assert(t[k] == g.files[k]);
                assert(g.files[k].rid() < g.files[n - 1].rid());
            }
        }
    }
}

/// `outline` is answered for the files whose paths hold the question, the four
/// shortest of them, or with that there are none.
pub proof fn law_outlines_are_answered(
    g: GraphV,
    sh: Seq<(Seq<char>, Seq<char>)>,
    q: Seq<char>,
    limit: nat,
)
    requires
        g.keyed(),
    ensures
        answers_outline(g, sh, q, limit, cli::answered(g, sh, Question::Outline, q, limit)),
{
    broadcast use vstd::seq_lib::group_to_multiset_ensures;

    let found = rows::gather(g.files, query::pick_file(q));
    let le = rows::row_order::<FileRow>();
    let all = rows::sorted(found, le);
    let files = query::outline_files(g, q);
    assert(g.files.take(g.files.len() as int) =~= g.files);
    lemma_files_once(g, q, g.files.len() as int);
    answers::law_parts_of_names_are_found(g, q);
    rows::law_rows_can_be_ordered::<FileRow>();
    rows::law_sorting_orders(found, le);
    found.lemma_multiset_has_no_duplicates();
    all.lemma_multiset_has_no_duplicates_conv();
    assert forall|f: FileV| #[trigger] all.contains(f) <==> g.files.contains(f) && exists|k: int|
        plain::stands_at(f.path, k, q) by {
        assert(all.to_multiset().count(f) == found.to_multiset().count(f));
        assert(all.contains(f) <==> found.contains(f));
        plain::law_texts_hold_their_parts(f.path, q);
    }
    assert forall|i: int, j: int| 0 <= i < j < all.len() implies path_not_longer(
        #[trigger] all[i],
        #[trigger] all[j],
    ) by {
        assert(le(all[i], all[j]));
        if has_no_nul(all[i].path) && has_no_nul(all[j].path) {
            lemma_no_nul(all[i].path);
            lemma_no_nul(all[j].path);
        }
    }
    assert(are_files(g, q, all));
    assert(files == telling::cut(all, 4));
    let b = query::outline_block(g, sh, limit);
    let texts = files.map_values(b);
    lemma_concat(files, b);
    assert forall|i: int| 0 <= i < files.len() implies telling::tells_outline(
        g,
        sh,
        #[trigger] files[i],
        limit,
        texts[i],
    ) by {
        telling::law_outlines_are_told(g, sh, files[i], limit);
    }
    assert(outline_each(g, sh, files, limit, texts));
}

// ---- numbers ------------------------------------------------------------

/// `stats` tells how many rows each table has.
pub proof fn law_tables_are_counted(g: GraphV)
    ensures
        query::counts(g) == "units: "@ + plain::numeral(g.units.len() as int) + "\nrecords: "@
            + plain::numeral(g.records.len() as int) + "\nfiles: "@ + plain::numeral(
            g.files.len() as int,
        ) + "\nsymbols: "@ + plain::numeral(g.symbols.len() as int) + "\noccurrences: "@
            + plain::numeral(g.occurrences.len() as int) + "\nrelations: "@ + plain::numeral(
            g.relations.len() as int,
        ),
{
    plain::law_numbers_are_written_in_decimal(g.units.len() as int);
    plain::law_numbers_are_written_in_decimal(g.records.len() as int);
    plain::law_numbers_are_written_in_decimal(g.files.len() as int);
    plain::law_numbers_are_written_in_decimal(g.symbols.len() as int);
    plain::law_numbers_are_written_in_decimal(g.occurrences.len() as int);
    plain::law_numbers_are_written_in_decimal(g.relations.len() as int);
}

/// The outcome of a merge is told with its numbers.
pub proof fn law_outcomes_are_told(st: MergeStats)
    ensures
        merge::stats_text(st) == "units "@ + plain::numeral(st.units_processed as int) + "/"@
            + plain::numeral(st.units_total as int) + " processed, "@ + plain::numeral(
            st.units_removed as int,
        ) + " removed; records "@ + plain::numeral(st.records_ingested as int) + " new / "@
            + plain::numeral(st.records_reused as int) + " reused; "@ + plain::numeral(
            st.occurrences_added as int,
        ) + " occurrences; "@ + plain::numeral(st.elapsed_ms as int) + " ms"@,
{
    plain::law_numbers_are_written_in_decimal(st.units_processed as int);
    plain::law_numbers_are_written_in_decimal(st.units_total as int);
    plain::law_numbers_are_written_in_decimal(st.units_removed as int);
    plain::law_numbers_are_written_in_decimal(st.records_ingested as int);
    plain::law_numbers_are_written_in_decimal(st.records_reused as int);
    plain::law_numbers_are_written_in_decimal(st.occurrences_added as int);
    plain::law_numbers_are_written_in_decimal(st.elapsed_ms as int);
}

} // verus!
