//! Questions to the graph. The answers are lines of text.
//!
//! - A symbol can be asked for by its USR, by a scoped name such as
//!   `Class::Member`, or by its name alone.
//! - Where a name stands for a few symbols, all of them are answered for; where
//!   it stands for many, the answer lists them.
//! - An answer that a limit cuts short says how many rows there are in all, and
//!   how many are shown.
//! - Paths are shortened by a [`Shortener`].
use vstd::hash_map::HashMapWithView;
use vstd::prelude::*;

use crate::db::{
    self, find_id, FileRow, FileV, Graph, GraphV, OccRow, RelationRow, SymbolRow, SymbolV,
};
use crate::ffi::{
    self, test_role, ROLE_ADDRESSOF, ROLE_CALL, ROLE_DECLARATION, ROLE_DEFINITION, ROLE_DYNAMIC,
    ROLE_IMPLICIT, ROLE_READ, ROLE_REFERENCE, ROLE_REL_BASEOF, ROLE_REL_CALLEDBY,
    ROLE_REL_CHILDOF, ROLE_REL_CONTAINEDBY, ROLE_REL_OVERRIDEOF, ROLE_REL_SPECIALIZATIONOF,
    ROLE_WRITE,
};
use crate::rows::{self, distinct_rows, limit_rows, sorted_rows, Distinct, Ordered, Row};
use crate::text::{self, has_prefix, is_text_le, push_int, push_nat};

verus! {

// ---- names of kinds and roles -------------------------------------------

/// The name of a symbol kind.
pub open spec fn kind_text(kind: i64) -> Seq<char> {
    match kind {
        1i64 => "module"@,
        2i64 => "namespace"@,
        3i64 => "namespace-alias"@,
        4i64 => "macro"@,
        5i64 => "enum"@,
        6i64 => "struct"@,
        7i64 => "class"@,
        8i64 => "protocol"@,
        9i64 => "extension"@,
        10i64 => "union"@,
        11i64 => "typealias"@,
        12i64 => "function"@,
        13i64 => "variable"@,
        14i64 => "field"@,
        15i64 => "enum-constant"@,
        16i64 => "instance-method"@,
        17i64 => "class-method"@,
        18i64 => "static-method"@,
        19i64 => "instance-property"@,
        20i64 => "class-property"@,
        21i64 => "static-property"@,
        22i64 => "constructor"@,
        23i64 => "destructor"@,
        24i64 => "conversion-function"@,
        25i64 => "parameter"@,
        26i64 => "using"@,
        27i64 => "concept"@,
        _ => "unknown"@,
    }
}

/// The name of a symbol kind.
pub fn kind_name(kind: i64) -> (r: &'static str)
    ensures
        r@ == kind_text(kind),
{
    match kind {
        1 => "module",
        2 => "namespace",
        3 => "namespace-alias",
        4 => "macro",
        5 => "enum",
        6 => "struct",
        7 => "class",
        8 => "protocol",
        9 => "extension",
        10 => "union",
        11 => "typealias",
        12 => "function",
        13 => "variable",
        14 => "field",
        15 => "enum-constant",
        16 => "instance-method",
        17 => "class-method",
        18 => "static-method",
        19 => "instance-property",
        20 => "class-property",
        21 => "static-property",
        22 => "constructor",
        23 => "destructor",
        24 => "conversion-function",
        25 => "parameter",
        26 => "using",
        27 => "concept",
        _ => "unknown",
    }
}

/// The tag, where `roles` have the bit.
pub open spec fn tag(roles: i64, bit: u64, name: Seq<char>) -> Seq<Seq<char>> {
    if ffi::has_role(roles, bit) {
        seq![name]
    } else {
        Seq::empty()
    }
}

/// The tags of the roles of an occurrence.
pub open spec fn role_tags(roles: i64) -> Seq<Seq<char>> {
    tag(roles, ROLE_DEFINITION, "def"@) + tag(roles, ROLE_DECLARATION, "decl"@) + tag(
        roles,
        ROLE_CALL,
        "call"@,
    ) + tag(roles, ROLE_REFERENCE, "ref"@) + tag(roles, ROLE_READ, "read"@) + tag(
        roles,
        ROLE_WRITE,
        "write"@,
    ) + tag(roles, ROLE_ADDRESSOF, "addrof"@) + tag(roles, ROLE_DYNAMIC, "dyn"@) + tag(
        roles,
        ROLE_IMPLICIT,
        "implicit"@,
    )
}

/// The roles of an occurrence, as text.
pub open spec fn role_list(roles: i64) -> Seq<char> {
    text::joined(role_tags(roles), ","@)
}

fn push_tag(tags: &mut Vec<String>, roles: i64, bit: u64, name: &str)
    ensures
        text::texts(final(tags)@) == text::texts(old(tags)@) + tag(roles, bit, name@),
{
    if test_role(roles, bit) {
        tags.push(name.to_owned());
        assert(text::texts(tags@) =~= text::texts(old(tags)@) + seq![name@]);
    } else {
        assert(text::texts(tags@) =~= text::texts(old(tags)@) + Seq::<Seq<char>>::empty());
    }
}

/// The roles of an occurrence, as text.
pub fn roles_text(roles: i64) -> (r: String)
    ensures
        r@ == role_list(roles),
{
    let mut tags: Vec<String> = Vec::new();
    assert(text::texts(tags@) =~= Seq::<Seq<char>>::empty());
    push_tag(&mut tags, roles, ROLE_DEFINITION, "def");
    push_tag(&mut tags, roles, ROLE_DECLARATION, "decl");
    push_tag(&mut tags, roles, ROLE_CALL, "call");
    push_tag(&mut tags, roles, ROLE_REFERENCE, "ref");
    push_tag(&mut tags, roles, ROLE_READ, "read");
    push_tag(&mut tags, roles, ROLE_WRITE, "write");
    push_tag(&mut tags, roles, ROLE_ADDRESSOF, "addrof");
    push_tag(&mut tags, roles, ROLE_DYNAMIC, "dyn");
    push_tag(&mut tags, roles, ROLE_IMPLICIT, "implicit");
    assert(text::texts(tags@) =~= role_tags(roles));
    text::join(&tags, ",")
}

// ---- shorter paths ------------------------------------------------------

/// Shortens paths: of the prefixes that it knows, the first that a path starts
/// with is replaced.
pub struct Shortener {
    pairs: Vec<(String, String)>,
}

/// `path` with the first of the prefixes that it starts with replaced.
pub open spec fn shortened(pairs: Seq<(Seq<char>, Seq<char>)>, path: Seq<char>) -> Seq<char>
    decreases pairs.len(),
{
    if pairs.len() == 0 {
        path
    } else if pairs[0].0.is_prefix_of(path) {
        pairs[0].1 + path.skip(pairs[0].0.len() as int)
    } else {
        shortened(pairs.drop_first(), path)
    }
}

impl View for Shortener {
    type V = Seq<(Seq<char>, Seq<char>)>;

    closed spec fn view(&self) -> Seq<(Seq<char>, Seq<char>)> {
        self.pairs@.map_values(|p: (String, String)| (p.0@, p.1@))
    }
}

impl Default for Shortener {
    fn default() -> (r: Shortener)
        ensures
            r@ == Seq::<(Seq<char>, Seq<char>)>::empty(),
    {
        let r = Shortener { pairs: Vec::new() };
        assert(r@ =~= Seq::<(Seq<char>, Seq<char>)>::empty());
        r
    }
}

impl Shortener {
    /// A shortener that knows the prefixes and what each is replaced by.
    pub fn new(pairs: Vec<(String, String)>) -> (r: Shortener)
        ensures
            r@ == pairs@.map_values(|p: (String, String)| (p.0@, p.1@)),
    {
        Shortener { pairs }
    }

    /// `path`, shortened.
    pub fn s(&self, path: &str) -> (r: String)
        ensures
            r@ == shortened(self@, path@),
    {
        let mut i: usize = 0;
        let ghost all = self@;
        assert(all.skip(0) =~= all);
        while i < self.pairs.len()
            invariant
                all == self@,
                all.len() == self.pairs.len(),
                i <= self.pairs.len(),
                shortened(all, path@) == shortened(all.skip(i as int), path@),
            decreases self.pairs.len() - i,
        {
            assert(all.skip(i as int)[0] == (self.pairs@[i as int].0@, self.pairs@[i as int].1@));
            assert(all.skip(i as int).drop_first() =~= all.skip(i + 1));
            let prefix = self.pairs[i].0.as_str();
            if has_prefix(path, prefix) {
                let n = prefix.unicode_len();
                let m = path.unicode_len();
                let mut out = self.pairs[i].1.clone();
                out.append(path.substring_char(n, m));
                assert(path@.subrange(n as int, m as int) =~= path@.skip(n as int));
                return out;
            }
            i = i + 1;
        }
        path.to_owned()
    }
}

// ---- finding symbols ----------------------------------------------------

/// A symbol that a question stands for.
pub struct Sym {
    pub id: i64,
    pub usr: String,
    pub name: String,
    pub kind: i64,
}

pub struct SymV {
    pub id: i64,
    pub usr: Seq<char>,
    pub name: Seq<char>,
    pub kind: i64,
}

impl View for Sym {
    type V = SymV;

    open spec fn view(&self) -> SymV {
        SymV { id: self.id, usr: self.usr@, name: self.name@, kind: self.kind }
    }
}

impl Row for Sym {
    type Said = SymV;

    open spec fn said(&self) -> SymV {
        self@
    }
}

impl Distinct for Sym {
    open spec fn group_of(a: SymV) -> i64 {
        a.id
    }

    fn group(&self) -> (r: i64) {
        self.id
    }

    fn same(&self, other: &Sym) -> (r: bool) {
        self.id == other.id && self.kind == other.kind && self.usr == other.usr && self.name
            == other.name
    }
}

/// Symbols that hold a text are listed with the shorter names first.
impl Ordered for Sym {
    open spec fn not_after(a: SymV, b: SymV) -> bool {
        text::text_length(a.name) <= text::text_length(b.name)
    }

    proof fn any_two(a: SymV, b: SymV) {
    }

    proof fn no_circles(a: SymV, b: SymV, c: SymV) {
    }

    fn in_order(&self, other: &Sym) -> (r: bool) {
        text::chars_before_nul(self.name.as_str()).len() <= text::chars_before_nul(
            other.name.as_str(),
        ).len()
    }
}

/// A row of the symbol table, as far as questions need it.
pub open spec fn sym_of(s: SymbolV) -> SymV {
    SymV { id: s.id, usr: s.usr, name: s.name, kind: s.kind }
}

fn make_sym(s: &SymbolRow) -> (r: Sym)
    ensures
        r@ == sym_of(s@),
{
    Sym { id: s.id, usr: s.usr.clone(), name: s.name.clone(), kind: s.kind }
}

/// What a row of the symbol table adds to a search.
pub open spec fn pick_symbol(
    p: spec_fn(SymbolV) -> bool,
) -> spec_fn(SymbolV) -> Seq<SymV> {
    |s: SymbolV|
        if p(s) {
            seq![sym_of(s)]
        } else {
            Seq::empty()
        }
}

/// The symbols that `p` holds of, in the order of their ids.
pub open spec fn symbols_where(
    g: GraphV,
    p: spec_fn(SymbolV) -> bool,
) -> Seq<SymV> {
    rows::gather(g.symbols, pick_symbol(p))
}

/// The parts of a scoped name as a USR holds them: each container between two
/// `@`, and the name after one.
pub open spec fn scope_pieces(parts: Seq<Seq<char>>) -> Seq<Seq<char>> {
    Seq::new(
        parts.len(),
        |i: int|
            if i < parts.len() - 1 {
                "@"@ + parts[i] + "@"@
            } else {
                "@"@ + parts[i]
            },
    )
}

/// Whether the USR holds the containers in their order, each between two `@`,
/// and then the name after an `@`, ASCII letters in either case.
pub open spec fn holds_scope(usr: Seq<char>, parts: Seq<Seq<char>>) -> bool {
    text::holds_in_order(usr, scope_pieces(parts))
}

/// The symbols with the USR.
pub open spec fn with_usr(g: GraphV, usr: Seq<char>) -> Seq<SymV> {
    symbols_where(g, |s: SymbolV| s.usr == usr)
}

/// The symbols with the last of the parts for their name and the others for
/// containers.
pub open spec fn with_scope(g: GraphV, parts: Seq<Seq<char>>) -> Seq<SymV> {
    symbols_where(
        g,
        |s: SymbolV|
            s.name == parts.last() && holds_scope(s.usr, parts),
    )
}

/// The symbols with the name.
pub open spec fn with_name(g: GraphV, name: Seq<char>) -> Seq<SymV> {
    symbols_where(g, |s: SymbolV| s.name == name)
}

/// The symbols whose names hold the text, ASCII letters in either case, shorter
/// names first.
pub open spec fn with_name_like(g: GraphV, t: Seq<char>) -> Seq<SymV> {
    rows::sorted(
        symbols_where(g, |s: SymbolV| text::holds_nocase(s.name, t)),
        rows::row_order::<Sym>(),
    )
}

/// Whether a question is a scoped name.
pub open spec fn is_scoped(query: Seq<char>) -> bool {
    text::has_separator(query) && text::scope_parts(query).len() > 0
}

/// All symbols that fit a question:
/// - where it starts with `c:`, those with that USR;
/// - where it is a scoped name, those with the name in the scope;
/// - else those with the name or, if there are none, those whose names hold it.
pub open spec fn fitting(g: GraphV, query: Seq<char>) -> Seq<SymV> {
    if "c:"@.is_prefix_of(query) {
        with_usr(g, query)
    } else if is_scoped(query) {
        with_scope(g, text::scope_parts(query))
    } else if with_name(g, query).len() > 0 {
        with_name(g, query)
    } else {
        with_name_like(g, query)
    }
}

/// The symbols that a question stands for: those that fit it and, unless it is a
/// USR, at most `limit` of them.
pub open spec fn resolved(g: GraphV, query: Seq<char>, limit: nat) -> Seq<SymV> {
    if "c:"@.is_prefix_of(query) {
        fitting(g, query)
    } else {
        rows::first_of(fitting(g, query), limit)
    }
}

/// What a search looks for.
enum Wanted {
    /// A symbol with the USR.
    Usr(String),
    /// A symbol with the name.
    Name(String),
    /// A symbol with the name whose USR holds the pieces in their order.
    Scoped(String, Vec<Vec<char>>),
    /// A symbol whose name holds the text.
    Holding(Vec<char>),
}

impl Wanted {
    spec fn fits(&self, s: SymbolV) -> bool {
        match self {
            Wanted::Usr(u) => s.usr == u@,
            Wanted::Name(n) => s.name == n@,
            Wanted::Scoped(n, p) => s.name == n@ && text::holds_in_order(
                s.usr,
                text::spelled(p@),
            ),
            Wanted::Holding(t) => text::holds_nocase(s.name, t@),
        }
    }

    fn is_fit(&self, s: &SymbolRow) -> (r: bool)
        ensures
            r == self.fits(s@),
    {
        match self {
            Wanted::Usr(u) => s.usr == *u,
            Wanted::Name(n) => s.name == *n,
            Wanted::Scoped(n, p) => s.name == *n && text::is_holding_in_order(
                &text::chars_of(s.usr.as_str()),
                p,
            ),
            Wanted::Holding(t) => text::is_holding(&text::chars_of(s.name.as_str()), t),
        }
    }
}

fn search(graph: &Graph, wanted: &Wanted) -> (r: Vec<Sym>)
    ensures
        rows::said_of(r@) == symbols_where(
            graph@,
            |s: SymbolV| wanted.fits(s),
        ),
{
    let ghost all = graph@.symbols;
    let ghost f = pick_symbol(|s: SymbolV| wanted.fits(s));
    let mut out: Vec<Sym> = Vec::new();
    let mut i: usize = 0;
    proof {
        assert(rows::said_of(out@) =~= Seq::<SymV>::empty());
        rows::lemma_gather_start(all, f);
    }
    while i < graph.symbols.len()
        invariant
            all == graph@.symbols,
            all.len() == graph.symbols.len(),
            i <= all.len(),
            f == pick_symbol(|s: SymbolV| wanted.fits(s)),
            rows::said_of(out@) + rows::gather(all.skip(i as int), f) == rows::gather(all, f),
        decreases all.len() - i,
    {
        let ghost o = out@;
        proof {
            rows::lemma_gather_step(all, f, rows::said_of(out@), i as int);
            assert(all[i as int] == graph.symbols@[i as int]@);
        }
        if wanted.is_fit(&graph.symbols[i]) {
            out.push(make_sym(&graph.symbols[i]));
        }
        assert(rows::said_of(out@) =~= rows::said_of(o) + f(all[i as int]));
        i = i + 1;
    }
    proof {
        rows::lemma_gather_end(all, f, rows::said_of(out@));
    }
    out
}

/// The parts of a scoped name as a USR holds them.
fn make_scope_pieces(parts: &Vec<String>) -> (r: Vec<Vec<char>>)
    ensures
        text::spelled(r@) == scope_pieces(text::texts(parts@)),
{
    let ghost all = scope_pieces(text::texts(parts@));
    let mut out: Vec<Vec<char>> = Vec::new();
    let mut i: usize = 0;
    assert(text::spelled(out@) =~= all.take(0));
    while i < parts.len()
        invariant
            all == scope_pieces(text::texts(parts@)),
            i <= parts.len(),
            text::spelled(out@) == all.take(i as int),
        decreases parts.len() - i,
    {
        let ghost o = out@;
        let mut piece = "@".to_owned();
        piece.append(parts[i].as_str());
        if i < parts.len() - 1 {
            piece.append("@");
        }
        assert(piece@ == all[i as int]);
        out.push(text::chars_of(piece.as_str()));
        proof {
            assert(text::spelled(out@) =~= text::spelled(o).push(piece@));
            assert(all.take(i + 1) =~= all.take(i as int).push(all[i as int]));
        }
        i = i + 1;
    }
    assert(all.take(i as int) =~= all);
    out
}

/// All symbols that fit a question.
fn find_fitting(graph: &Graph, query: &str) -> (r: Vec<Sym>)
    ensures
        rows::said_of(r@) == fitting(graph@, query@),
{
    if has_prefix(query, "c:") {
        let wanted = Wanted::Usr(query.to_owned());
        proof {
            assert((|s: SymbolV| wanted.fits(s)) =~= (|s: SymbolV|
                s.usr == query@));
        }
        return search(graph, &wanted);
    }
    let (parts, found) = text::split_scope(query);
    let ghost all = text::texts(parts@);
    if found && parts.len() > 0 {
        let last = parts[parts.len() - 1].clone();
        let wanted = Wanted::Scoped(last, make_scope_pieces(&parts));
        proof {
            assert(all.last() == last@);
            assert((|s: SymbolV| wanted.fits(s)) =~= (|s: SymbolV|
                s.name == all.last() && holds_scope(s.usr, all)));
        }
        return search(graph, &wanted);
    }
    let wanted = Wanted::Name(query.to_owned());
    proof {
        assert((|s: SymbolV| wanted.fits(s)) =~= (|s: SymbolV|
            s.name == query@));
    }
    let exact = search(graph, &wanted);
    if exact.len() > 0 {
        assert(with_name(graph@, query@).len() == exact@.len());
        return exact;
    }
    assert(with_name(graph@, query@).len() == exact@.len());
    let wanted = Wanted::Holding(text::chars_of(query));
    proof {
        assert((|s: SymbolV| wanted.fits(s)) =~= (|s: SymbolV|
            text::holds_nocase(s.name, query@)));
    }
    sorted_rows(search(graph, &wanted))
}

/// Cuts what fits a question down to what the question stands for.
fn cut_fitting(syms: &mut Vec<Sym>, query: &str, limit: usize)
    ensures
        rows::said_of(final(syms)@) == if "c:"@.is_prefix_of(query@) {
            rows::said_of(old(syms)@)
        } else {
            rows::first_of(rows::said_of(old(syms)@), limit as nat)
        },
{
    if !has_prefix(query, "c:") {
        limit_rows(syms, limit);
    }
}

/// The symbols that a question stands for.
pub fn resolve(graph: &Graph, query: &str, limit: usize) -> (r: Vec<Sym>)
    ensures
        rows::said_of(r@) == resolved(graph@, query@, limit as nat),
{
    let mut syms = find_fitting(graph, query);
    cut_fitting(&mut syms, query, limit);
    syms
}

// ---- places of definition -----------------------------------------------

/// The path of the file that an occurrence is in.
pub open spec fn path_of(g: GraphV, o: OccRow) -> Option<Seq<char>> {
    match db::by_id(g.records, o.record_id) {
        Some(r) => match db::by_id(g.files, r.file_id) {
            Some(f) => Some(f.path),
            None => None,
        },
        None => None,
    }
}

fn find_path<'a>(graph: &'a Graph, o: &OccRow) -> (r: Option<&'a String>)
    requires
        graph.wf(),
    ensures
        match r {
            Some(p) => path_of(graph@, *o) == Some(p@),
            None => path_of(graph@, *o) is None,
        },
{
    match find_id(&graph.records, o.record_id) {
        Some(i) => match find_id(&graph.files, graph.records[i].file_id) {
            Some(j) => Some(&graph.files[j].path),
            None => None,
        },
        None => None,
    }
}

/// A line of a file.
pub struct Place {
    pub path: String,
    pub line: i64,
}

pub struct PlaceV {
    pub path: Seq<char>,
    pub line: i64,
}

impl Row for Place {
    type Said = PlaceV;

    open spec fn said(&self) -> PlaceV {
        PlaceV { path: self.path@, line: self.line }
    }
}

impl Distinct for Place {
    open spec fn group_of(a: PlaceV) -> i64 {
        a.line
    }

    fn group(&self) -> (r: i64) {
        self.line
    }

    fn same(&self, other: &Place) -> (r: bool) {
        self.line == other.line && self.path == other.path
    }
}

/// Places are listed by path.
impl Ordered for Place {
    open spec fn not_after(a: PlaceV, b: PlaceV) -> bool {
        text::text_le(a.path, b.path)
    }

    proof fn any_two(a: PlaceV, b: PlaceV) {
        text::law_texts_are_ordered(a.path, b.path, a.path);
    }

    proof fn no_circles(a: PlaceV, b: PlaceV, c: PlaceV) {
        text::law_texts_are_ordered(a.path, b.path, c.path);
    }

    fn in_order(&self, other: &Place) -> (r: bool) {
        is_text_le(self.path.as_str(), other.path.as_str())
    }
}

/// What an occurrence adds to the places of definition of a symbol.
pub open spec fn pick_definition(g: GraphV, sym: i64) -> spec_fn(OccRow) -> Seq<PlaceV> {
    |o: OccRow|
        match path_of(g, o) {
            Some(p) if o.symbol_id == sym && ffi::has_role(o.roles, ROLE_DEFINITION) => seq![
                PlaceV { path: p, line: o.line },
            ],
            _ => Seq::empty(),
        }
}

/// The first `limit` places where a symbol is defined, by path. One file can
/// be part of several records, so that a place can be found more than once.
pub open spec fn definition_places(g: GraphV, sym: i64, limit: nat) -> Seq<PlaceV> {
    rows::first_of(
        rows::sorted(
            rows::distinct(rows::gather(g.occurrences, pick_definition(g, sym))),
            rows::row_order::<Place>(),
        ),
        limit,
    )
}

/// A place, with its path shortened.
pub open spec fn place_text(sh: Seq<(Seq<char>, Seq<char>)>, p: PlaceV) -> Seq<char> {
    shortened(sh, p.path) + ":"@ + text::dec(p.line as int)
}

/// The places where a symbol is defined.
fn find_definitions(graph: &Graph, sym: i64, limit: usize) -> (r: Vec<Place>)
    requires
        graph.wf(),
    ensures
        rows::said_of(r@) == definition_places(graph@, sym, limit as nat),
{
    let ghost all = graph@.occurrences;
    let ghost f = pick_definition(graph@, sym);
    let mut out: Vec<Place> = Vec::new();
    let mut i: usize = 0;
    proof {
        assert(rows::said_of(out@) =~= Seq::<PlaceV>::empty());
        rows::lemma_gather_start(all, f);
    }
    while i < graph.occurrences.len()
        invariant
            graph.wf(),
            all == graph.occurrences@,
            i <= all.len(),
            f == pick_definition(graph@, sym),
            rows::said_of(out@) + rows::gather(all.skip(i as int), f) == rows::gather(all, f),
        decreases all.len() - i,
    {
        let ghost o = out@;
        proof {
            rows::lemma_gather_step(all, f, rows::said_of(out@), i as int);
        }
        let occ = graph.occurrences[i];
        if occ.symbol_id == sym && test_role(occ.roles, ROLE_DEFINITION) {
            if let Some(p) = find_path(graph, &occ) {
                out.push(Place { path: p.clone(), line: occ.line });
            }
        }
        assert(rows::said_of(out@) =~= rows::said_of(o) + f(all[i as int]));
        i = i + 1;
    }
    proof {
        rows::lemma_gather_end(all, f, rows::said_of(out@));
    }
    let mut r = sorted_rows(distinct_rows(out));
    limit_rows(&mut r, limit);
    r
}

/// A place, with its path shortened.
fn write_place(sh: &Shortener, p: &Place) -> (r: String)
    ensures
        r@ == place_text(sh@, p.said()),
{
    let mut out = sh.s(p.path.as_str());
    out.append(":");
    push_int(&mut out, p.line);
    out
}

/// The texts of the places where a symbol is defined.
pub open spec fn definition_texts(
    g: GraphV,
    sh: Seq<(Seq<char>, Seq<char>)>,
    sym: i64,
    limit: nat,
) -> Seq<Seq<char>> {
    definition_places(g, sym, limit).map_values(|p: PlaceV| place_text(sh, p))
}

/// The texts of the places where a symbol is defined.
pub fn def_locations(graph: &Graph, sh: &Shortener, sym: i64, limit: usize) -> (r: Vec<String>)
    requires
        graph.wf(),
    ensures
        text::texts(r@) == definition_texts(graph@, sh@, sym, limit as nat),
{
    let places = find_definitions(graph, sym, limit);
    let mut out: Vec<String> = Vec::new();
    let mut i: usize = 0;
    while i < places.len()
        invariant
            i <= places.len(),
            out.len() == i,
            forall|k: int|
                0 <= k < i ==> (#[trigger] out@[k])@ == place_text(sh@, places@[k].said()),
        decreases places.len() - i,
    {
        out.push(write_place(sh, &places[i]));
        i = i + 1;
    }
    assert(text::texts(out@) =~= rows::said_of(places@).map_values(
        |p: PlaceV| place_text(sh@, p),
    ));
    out
}

/// How many places of definition a headline names.
pub const HEADLINE_PLACES: usize = 3;

/// A symbol, its kind, where it is defined, and its USR on a line of its own.
pub open spec fn headline(g: GraphV, sh: Seq<(Seq<char>, Seq<char>)>, s: SymV) -> Seq<char> {
    let places = definition_texts(g, sh, s.id, HEADLINE_PLACES as nat);
    let at = if places.len() == 0 {
        "(no definition indexed)"@
    } else {
        text::joined(places, " | "@)
    };
    s.name + " ["@ + kind_text(s.kind) + "] "@ + at + "\n  usr: "@ + s.usr
}

/// A symbol, its kind, where it is defined, and its USR on a line of its own.
pub fn sym_headline(graph: &Graph, sh: &Shortener, s: &Sym) -> (r: String)
    requires
        graph.wf(),
    ensures
        r@ == headline(graph@, sh@, s@),
{
    let places = def_locations(graph, sh, s.id, HEADLINE_PLACES);
    let at = if places.len() == 0 {
        "(no definition indexed)".to_owned()
    } else {
        text::join(&places, " | ")
    };
    let mut out = s.name.clone();
    out.append(" [");
    out.append(kind_name(s.kind));
    out.append("] ");
    out.append(at.as_str());
    out.append("\n  usr: ");
    out.append(s.usr.as_str());
    out
}

// ---- what is cut short --------------------------------------------------

/// The line that says how many there are in all, where that is more than are
/// shown.
pub open spec fn note(total: nat, shown: nat) -> Seq<char> {
    if total > shown {
        "  ("@ + text::dec_nat(total) + " total, showing "@ + text::dec_nat(shown) + ")\n"@
    } else {
        Seq::empty()
    }
}

fn write_note(total: usize, shown: usize, out: &mut String)
    ensures
        final(out)@ == old(out)@ + note(total as nat, shown as nat),
{
    if total > shown {
        out.append("  (");
        push_nat(out, total as u128);
        out.append(" total, showing ");
        push_nat(out, shown as u128);
        out.append(")\n");
    }
    assert(out@ =~= old(out)@ + note(total as nat, shown as nat));
}

// ---- find ---------------------------------------------------------------

/// What is answered where a question stands for no symbol.
pub open spec fn nothing_found(query: Seq<char>) -> Seq<char> {
    "no symbols match: "@ + query
}

fn write_nothing_found(query: &str) -> (r: String)
    ensures
        r@ == nothing_found(query@),
{
    let mut out = "no symbols match: ".to_owned();
    out.append(query);
    out
}

/// One symbol of an answer to `find`.
pub open spec fn found_block(
    g: GraphV,
    sh: Seq<(Seq<char>, Seq<char>)>,
) -> spec_fn(SymV) -> Seq<char> {
    |s: SymV| headline(g, sh, s) + "\n"@
}

/// The answer to `find`.
pub open spec fn found(
    g: GraphV,
    sh: Seq<(Seq<char>, Seq<char>)>,
    query: Seq<char>,
    limit: nat,
) -> Seq<char> {
    let syms = resolved(g, query, limit);
    if fitting(g, query).len() == 0 {
        nothing_found(query)
    } else {
        note(fitting(g, query).len(), syms.len()) + rows::gather(syms, found_block(g, sh))
    }
}

/// The symbols that a question stands for, each with its kind, where it is
/// defined, and its USR.
pub fn find(graph: &Graph, sh: &Shortener, query: &str, limit: usize) -> (r: String)
    requires
        graph.wf(),
    ensures
        r@ == found(graph@, sh@, query@, limit as nat),
{
    let mut syms = find_fitting(graph, query);
    let total = syms.len();
    assert(fitting(graph@, query@).len() == total);
    if total == 0 {
        return write_nothing_found(query);
    }
    cut_fitting(&mut syms, query, limit);
    let ghost all = rows::said_of(syms@);
    let ghost f = found_block(graph@, sh@);
    let mut out = String::new();
    write_note(total, syms.len(), &mut out);
    let ghost head = note(total as nat, all.len());
    let mut i: usize = 0;
    proof {
        rows::lemma_gather_start(all, f);
        assert(out@ =~= head);
        assert(out@ + rows::gather(all.skip(0), f) =~= head + rows::gather(all, f));
    }
    while i < syms.len()
        invariant
            graph.wf(),
            all == rows::said_of(syms@),
            i <= syms.len(),
            f == found_block(graph@, sh@),
            out@ + rows::gather(all.skip(i as int), f) == head + rows::gather(all, f),
        decreases syms.len() - i,
    {
        let ghost o = out@;
        proof {
            rows::lemma_gather_step(all, f, out@, i as int);
        }
        out.append(sym_headline(graph, sh, &syms[i]).as_str());
        out.append("\n");
        assert(out@ =~= o + f(all[i as int]));
        i = i + 1;
    }
    proof {
        rows::lemma_gather_end(all, f, out@);
    }
    out
}

// ---- targets ------------------------------------------------------------

/// How many symbols a question about symbols may stand for at most to be
/// answered for each of them.
pub const AUTO_EXPAND_MAX: usize = 5;

/// How many symbols are looked for at most.
pub const TARGETS_MAX: usize = 30;

/// One symbol of the list that is answered where there are too many.
pub open spec fn candidate_line(
    g: GraphV,
    sh: Seq<(Seq<char>, Seq<char>)>,
) -> spec_fn(SymV) -> Seq<char> {
    |s: SymV|
        "  "@ + text::replaced(headline(g, sh, s), "\n  usr:"@, "  usr:"@) + "\n"@
}

/// What is answered where a question stands for too many symbols.
pub open spec fn too_many(
    g: GraphV,
    sh: Seq<(Seq<char>, Seq<char>)>,
    syms: Seq<SymV>,
) -> Seq<char> {
    "ambiguous ("@ + text::dec_nat(syms.len())
        + " matches, showing 30 max) — narrow with Class::Member or a USR:\n"@
        + rows::gather(syms, candidate_line(g, sh))
}

/// The symbols that a question is answered for, or what is answered instead:
/// that there are none, or the list of them where there are too many.
pub open spec fn targets(
    g: GraphV,
    sh: Seq<(Seq<char>, Seq<char>)>,
    query: Seq<char>,
) -> Result<Seq<SymV>, Seq<char>> {
    let syms = resolved(g, query, TARGETS_MAX as nat);
    if syms.len() == 0 {
        Err(nothing_found(query))
    } else if syms.len() > AUTO_EXPAND_MAX {
        Err(too_many(g, sh, syms))
    } else {
        Ok(syms)
    }
}

/// The symbols that a question is answered for, or what is answered instead.
pub fn resolve_targets(graph: &Graph, sh: &Shortener, query: &str) -> (r: Result<
    Vec<Sym>,
    String,
>)
    requires
        graph.wf(),
    ensures
        match r {
            Ok(syms) => targets(graph@, sh@, query@) == Ok::<Seq<SymV>, Seq<char>>(
                rows::said_of(syms@),
            ),
            Err(msg) => targets(graph@, sh@, query@) == Err::<Seq<SymV>, Seq<char>>(msg@),
        },
{
    let syms = resolve(graph, query, TARGETS_MAX);
    if syms.len() == 0 {
        return Err(write_nothing_found(query));
    }
    if syms.len() <= AUTO_EXPAND_MAX {
        return Ok(syms);
    }
    let mut out = "ambiguous (".to_owned();
    push_nat(&mut out, syms.len() as u128);
    out.append(" matches, showing 30 max) — narrow with Class::Member or a USR:\n");
    let ghost head = out@;
    let ghost all = rows::said_of(syms@);
    let ghost f = candidate_line(graph@, sh@);
    let mut i: usize = 0;
    proof {
        rows::lemma_gather_start(all, f);
        assert(out@ + rows::gather(all.skip(0), f) =~= head + rows::gather(all, f));
    }
    while i < syms.len()
        invariant
            graph.wf(),
            all == rows::said_of(syms@),
            i <= syms.len(),
            f == candidate_line(graph@, sh@),
            out@ + rows::gather(all.skip(i as int), f) == head + rows::gather(all, f),
        decreases syms.len() - i,
    {
        let ghost o = out@;
        proof {
            rows::lemma_gather_step(all, f, out@, i as int);
            reveal_strlit("\n  usr:");
        }
        let line = sym_headline(graph, sh, &syms[i]);
        out.append("  ");
        out.append(text::replace_all(line.as_str(), "\n  usr:", "  usr:").as_str());
        out.append("\n");
        assert(out@ =~= o + f(all[i as int]));
        i = i + 1;
    }
    proof {
        rows::lemma_gather_end(all, f, out@);
    }
    Err(out)
}

// ---- lines of an answer -------------------------------------------------

/// The lines of an answer, and how many there are in all.
pub struct OccRows {
    pub total: usize,
    pub lines: Vec<String>,
}

/// One line, indented.
pub open spec fn indented() -> spec_fn(Seq<char>) -> Seq<char> {
    |l: Seq<char>| "  "@ + l + "\n"@
}

/// The lines, after a line that says how many there are in all where that is
/// more than are shown.
pub open spec fn listing(total: nat, lines: Seq<Seq<char>>) -> Seq<char> {
    note(total, lines.len()) + rows::gather(lines, indented())
}

/// Appends the lines, indented.
fn write_lines(lines: &Vec<String>, out: &mut String)
    ensures
        final(out)@ == old(out)@ + rows::gather(text::texts(lines@), indented()),
{
    let ghost head = out@;
    let ghost all = text::texts(lines@);
    let ghost f = indented();
    let mut i: usize = 0;
    proof {
        rows::lemma_gather_start(all, f);
        assert(out@ + rows::gather(all.skip(0), f) =~= head + rows::gather(all, f));
    }
    while i < lines.len()
        invariant
            all == text::texts(lines@),
            i <= lines.len(),
            f == indented(),
            out@ + rows::gather(all.skip(i as int), f) == head + rows::gather(all, f),
        decreases lines.len() - i,
    {
        let ghost o = out@;
        proof {
            rows::lemma_gather_step(all, f, out@, i as int);
        }
        out.append("  ");
        out.append(lines[i].as_str());
        out.append("\n");
        assert(out@ =~= o + f(all[i as int]));
        i = i + 1;
    }
    proof {
        rows::lemma_gather_end(all, f, out@);
    }
}

impl OccRows {
    /// Appends the lines to `out`, after a line that says how many there are
    /// in all where that is more than are shown.
    pub fn render(&self, out: &mut String)
        ensures
            final(out)@ == old(out)@ + listing(self.total as nat, text::texts(self.lines@)),
    {
        write_note(self.total, self.lines.len(), out);
        write_lines(&self.lines, out);
        assert(text::texts(self.lines@).len() == self.lines@.len());
        assert(out@ =~= old(out)@ + listing(self.total as nat, text::texts(self.lines@)));
    }
}

/// The name, kind and USR of a symbol, on one line.
pub open spec fn sym_line(name: Seq<char>, kind: i64, usr: Seq<char>) -> Seq<char> {
    name + " ["@ + kind_text(kind) + "] usr: "@ + usr
}

fn write_sym(name: &String, kind: i64, usr: &String) -> (r: String)
    ensures
        r@ == sym_line(name@, kind, usr@),
{
    let mut out = name.clone();
    out.append(" [");
    out.append(kind_name(kind));
    out.append("] usr: ");
    out.append(usr.as_str());
    out
}

// ---- refs ---------------------------------------------------------------

/// Where a symbol occurs, and in what roles.
pub struct RefRow {
    pub path: String,
    pub line: i64,
    pub col: i64,
    pub roles: i64,
}

pub struct RefV {
    pub path: Seq<char>,
    pub line: i64,
    pub col: i64,
    pub roles: i64,
}

impl Row for RefRow {
    type Said = RefV;

    open spec fn said(&self) -> RefV {
        RefV { path: self.path@, line: self.line, col: self.col, roles: self.roles }
    }
}

impl Distinct for RefRow {
    open spec fn group_of(a: RefV) -> i64 {
        a.line
    }

    fn group(&self) -> (r: i64) {
        self.line
    }

    fn same(&self, other: &RefRow) -> (r: bool) {
        self.line == other.line && self.col == other.col && self.roles == other.roles
            && self.path == other.path
    }
}

/// Whether the line `al` of the file `ap` is not after the line `bl` of `bp`.
pub open spec fn place_le(ap: Seq<char>, al: i64, bp: Seq<char>, bl: i64) -> bool {
    if ap == bp {
        al <= bl
    } else {
        text::text_le(ap, bp)
    }
}

proof fn lemma_place_le(
    ap: Seq<char>,
    al: i64,
    bp: Seq<char>,
    bl: i64,
    cp: Seq<char>,
    cl: i64,
)
    ensures
        place_le(ap, al, bp, bl) || place_le(bp, bl, ap, al),
        place_le(ap, al, bp, bl) && place_le(bp, bl, cp, cl) ==> place_le(
            ap,
            al,
            cp,
            cl,
        ),
{
    text::law_texts_are_ordered(ap, bp, cp);
    text::law_texts_are_ordered(bp, ap, cp);
    text::law_texts_are_ordered(bp, cp, ap);
    text::law_texts_are_ordered(ap, cp, bp);
}

fn is_place_le(ap: &String, al: i64, bp: &String, bl: i64) -> (r: bool)
    ensures
        r == place_le(ap@, al, bp@, bl),
{
    if *ap == *bp {
        al <= bl
    } else {
        is_text_le(ap.as_str(), bp.as_str())
    }
}

/// Occurrences are listed by path and line.
impl Ordered for RefRow {
    open spec fn not_after(a: RefV, b: RefV) -> bool {
        place_le(a.path, a.line, b.path, b.line)
    }

    proof fn any_two(a: RefV, b: RefV) {
        lemma_place_le(a.path, a.line, b.path, b.line, a.path, a.line);
    }

    proof fn no_circles(a: RefV, b: RefV, c: RefV) {
        lemma_place_le(a.path, a.line, b.path, b.line, c.path, c.line);
    }

    fn in_order(&self, other: &RefRow) -> (r: bool) {
        is_place_le(&self.path, self.line, &other.path, other.line)
    }
}

/// What an occurrence adds to the list of the occurrences of a symbol.
pub open spec fn pick_ref(g: GraphV, sym: i64) -> spec_fn(OccRow) -> Seq<RefV> {
    |o: OccRow|
        match path_of(g, o) {
            Some(p) if o.symbol_id == sym => seq![
                RefV { path: p, line: o.line, col: o.col, roles: o.roles },
            ],
            _ => Seq::empty(),
        }
}

/// One occurrence, as text.
pub open spec fn ref_text(sh: Seq<(Seq<char>, Seq<char>)>) -> spec_fn(RefV) -> Seq<char> {
    |r: RefV|
        shortened(sh, r.path) + ":"@ + text::dec(r.line as int) + ":"@ + text::dec(r.col as int)
            + " ["@ + role_list(r.roles) + "]"@
}

/// The first `limit` occurrences of a symbol, by path and line.
pub open spec fn ref_rows(g: GraphV, sym: i64, limit: nat) -> Seq<RefV> {
    rows::first_of(
        rows::sorted(
            rows::distinct(rows::gather(g.occurrences, pick_ref(g, sym))),
            rows::row_order::<RefRow>(),
        ),
        limit,
    )
}

/// How many occurrences of a symbol there are, repeats not counted.
pub open spec fn ref_total(g: GraphV, sym: i64) -> nat {
    rows::distinct(rows::gather(g.occurrences, pick_ref(g, sym))).len()
}

/// What `refs` answers for one symbol.
pub open spec fn ref_block(
    g: GraphV,
    sh: Seq<(Seq<char>, Seq<char>)>,
    limit: nat,
) -> spec_fn(SymV) -> Seq<char> {
    |s: SymV|
        sym_line(s.name, s.kind, s.usr) + "\noccurrences:\n"@ + listing(
            ref_total(g, s.id),
            ref_rows(g, s.id, limit).map_values(ref_text(sh)),
        )
}

/// An answer that is made for each of the symbols that a question stands for.
pub open spec fn answer(
    t: Result<Seq<SymV>, Seq<char>>,
    block: spec_fn(SymV) -> Seq<char>,
) -> Seq<char> {
    match t {
        Ok(syms) => rows::gather(syms, block),
        Err(msg) => msg,
    }
}

fn find_refs(graph: &Graph, sh: &Shortener, sym: i64, limit: usize) -> (r: OccRows)
    requires
        graph.wf(),
    ensures
        r.total as nat == ref_total(graph@, sym),
        text::texts(r.lines@) == ref_rows(graph@, sym, limit as nat).map_values(ref_text(sh@)),
{
    let ghost all = graph@.occurrences;
    let ghost f = pick_ref(graph@, sym);
    let mut out: Vec<RefRow> = Vec::new();
    let mut i: usize = 0;
    proof {
        assert(rows::said_of(out@) =~= Seq::<RefV>::empty());
        rows::lemma_gather_start(all, f);
    }
    while i < graph.occurrences.len()
        invariant
            graph.wf(),
            all == graph.occurrences@,
            i <= all.len(),
            f == pick_ref(graph@, sym),
            rows::said_of(out@) + rows::gather(all.skip(i as int), f) == rows::gather(all, f),
        decreases all.len() - i,
    {
        let ghost o = out@;
        proof {
            rows::lemma_gather_step(all, f, rows::said_of(out@), i as int);
        }
        let occ = graph.occurrences[i];
        if occ.symbol_id == sym {
            if let Some(p) = find_path(graph, &occ) {
                out.push(
                    RefRow { path: p.clone(), line: occ.line, col: occ.col, roles: occ.roles },
                );
            }
        }
        assert(rows::said_of(out@) =~= rows::said_of(o) + f(all[i as int]));
        i = i + 1;
    }
    proof {
        rows::lemma_gather_end(all, f, rows::said_of(out@));
    }
    let once = distinct_rows(out);
    let total = once.len();
    assert(rows::said_of(once@).len() == total);
    let mut found = sorted_rows(once);
    limit_rows(&mut found, limit);
    let mut lines: Vec<String> = Vec::new();
    let mut j: usize = 0;
    while j < found.len()
        invariant
            j <= found.len(),
            lines.len() == j,
            forall|m: int|
                0 <= m < j ==> (#[trigger] lines@[m])@ == ref_text(sh@)(found@[m].said()),
        decreases found.len() - j,
    {
        let mut line = sh.s(found[j].path.as_str());
        line.append(":");
        push_int(&mut line, found[j].line);
        line.append(":");
        push_int(&mut line, found[j].col);
        line.append(" [");
        line.append(roles_text(found[j].roles).as_str());
        line.append("]");
        lines.push(line);
        j = j + 1;
    }
    assert(text::texts(lines@) =~= rows::said_of(found@).map_values(ref_text(sh@)));
    OccRows { total, lines }
}

/// Every occurrence of the symbols that a question stands for: definitions,
/// declarations, references and calls.
pub fn refs(graph: &Graph, sh: &Shortener, query: &str, limit: usize) -> (r: String)
    requires
        graph.wf(),
    ensures
        r@ == answer(targets(graph@, sh@, query@), ref_block(graph@, sh@, limit as nat)),
{
    let syms = match resolve_targets(graph, sh, query) {
        Ok(syms) => syms,
        Err(msg) => {
            return msg;
        },
    };
    let ghost all = rows::said_of(syms@);
    let ghost f = ref_block(graph@, sh@, limit as nat);
    let mut out = String::new();
    let mut i: usize = 0;
    proof {
        rows::lemma_gather_start(all, f);
    }
    while i < syms.len()
        invariant
            graph.wf(),
            all == rows::said_of(syms@),
            i <= syms.len(),
            f == ref_block(graph@, sh@, limit as nat),
            out@ + rows::gather(all.skip(i as int), f) == rows::gather(all, f),
        decreases syms.len() - i,
    {
        let ghost o = out@;
        proof {
            rows::lemma_gather_step(all, f, out@, i as int);
        }
        let found = find_refs(graph, sh, syms[i].id, limit);
        let mut block = write_sym(&syms[i].name, syms[i].kind, &syms[i].usr);
        block.append("\noccurrences:\n");
        found.render(&mut block);
        assert(block@ == f(all[i as int]));
        out.append(block.as_str());
        i = i + 1;
    }
    proof {
        rows::lemma_gather_end(all, f, out@);
    }
    out
}

// ---- callers and callees ------------------------------------------------

/// The two ends of a relation: the symbol that occurs, and the symbol that is
/// related to the occurrence.
#[derive(Clone, Copy, PartialEq, Eq, Structural)]
pub enum Side {
    /// The symbol that occurs.
    Occurring,
    /// The symbol that the occurrence is related to.
    Related,
}

/// The id of the symbol at an end of a relation.
pub open spec fn end_of(side: Side, o: OccRow, r: RelationRow) -> i64 {
    match side {
        Side::Occurring => o.symbol_id,
        Side::Related => r.symbol_id,
    }
}

/// The other end.
pub open spec fn opposite(side: Side) -> Side {
    match side {
        Side::Occurring => Side::Related,
        Side::Related => Side::Occurring,
    }
}

fn symbol_at(side: Side, o: &OccRow, r: &RelationRow) -> (id: i64)
    ensures
        id == end_of(side, *o, *r),
{
    match side {
        Side::Occurring => o.symbol_id,
        Side::Related => r.symbol_id,
    }
}

fn other_side(side: Side) -> (r: Side)
    ensures
        r == opposite(side),
{
    match side {
        Side::Occurring => Side::Related,
        Side::Related => Side::Occurring,
    }
}

/// A symbol at the other end of a relation, and where the relation is.
pub struct RelatedRow {
    pub name: String,
    pub kind: i64,
    pub usr: String,
    pub path: String,
    pub line: i64,
    pub roles: i64,
}

pub struct RelatedV {
    pub name: Seq<char>,
    pub kind: i64,
    pub usr: Seq<char>,
    pub path: Seq<char>,
    pub line: i64,
    pub roles: i64,
}

impl Row for RelatedRow {
    type Said = RelatedV;

    open spec fn said(&self) -> RelatedV {
        RelatedV {
            name: self.name@,
            kind: self.kind,
            usr: self.usr@,
            path: self.path@,
            line: self.line,
            roles: self.roles,
        }
    }
}

impl Distinct for RelatedRow {
    open spec fn group_of(a: RelatedV) -> i64 {
        a.line
    }

    fn group(&self) -> (r: i64) {
        self.line
    }

    fn same(&self, other: &RelatedRow) -> (r: bool) {
        self.line == other.line && self.kind == other.kind && self.roles == other.roles
            && self.usr == other.usr && self.name == other.name && self.path == other.path
    }
}

/// Calls come first; then the rows are listed by path and line.
impl Ordered for RelatedRow {
    open spec fn not_after(a: RelatedV, b: RelatedV) -> bool {
        if ffi::has_role(a.roles, ROLE_CALL) == ffi::has_role(b.roles, ROLE_CALL) {
            place_le(a.path, a.line, b.path, b.line)
        } else {
            ffi::has_role(a.roles, ROLE_CALL)
        }
    }

    proof fn any_two(a: RelatedV, b: RelatedV) {
        lemma_place_le(a.path, a.line, b.path, b.line, a.path, a.line);
    }

    proof fn no_circles(a: RelatedV, b: RelatedV, c: RelatedV) {
        lemma_place_le(a.path, a.line, b.path, b.line, c.path, c.line);
    }

    fn in_order(&self, other: &RelatedRow) -> (r: bool) {
        let a = test_role(self.roles, ROLE_CALL);
        let b = test_role(other.roles, ROLE_CALL);
        if a == b {
            is_place_le(&self.path, self.line, &other.path, other.line)
        } else {
            a
        }
    }
}

/// What a relation adds to what is related to the symbol `sym`, which is at
/// the end `side`.
pub open spec fn pick_related(g: GraphV, sym: i64, mask: u64, side: Side) -> spec_fn(
    RelationRow,
) -> Seq<RelatedV> {
    |r: RelationRow|
        match db::by_id(g.occurrences, r.occ_id) {
            Some(o) if ffi::has_role(r.roles, mask) && end_of(side, o, r) == sym => match (
                db::by_id(g.symbols, end_of(opposite(side), o, r)),
                path_of(g, o),
            ) {
                (Some(s), Some(p)) => seq![
                    RelatedV {
                        name: s.name,
                        kind: s.kind,
                        usr: s.usr,
                        path: p,
                        line: o.line,
                        roles: o.roles,
                    },
                ],
                _ => Seq::empty(),
            },
            _ => Seq::empty(),
        }
}

/// What is related to a symbol, before repeats are removed.
pub open spec fn related_all(g: GraphV, sym: i64, mask: u64, side: Side) -> Seq<RelatedV> {
    rows::gather(g.relations, pick_related(g, sym, mask, side))
}

/// What is counted of a row in the head of an answer: the symbol and the line.
pub open spec fn related_key() -> spec_fn(RelatedV) -> Seq<char> {
    |r: RelatedV| r.usr + "@"@ + r.path + ":"@ + text::dec(r.line as int)
}

/// How many lines relate a symbol to a symbol at the other end.
pub open spec fn related_lines(g: GraphV, sym: i64, mask: u64, side: Side) -> nat {
    rows::distinct(related_all(g, sym, mask, side).map_values(related_key())).len()
}

/// How many rows there are of what is related to a symbol, repeats not counted.
pub open spec fn related_total(g: GraphV, sym: i64, mask: u64, side: Side) -> nat {
    rows::distinct(related_all(g, sym, mask, side)).len()
}

/// The first `limit` rows of what is related to a symbol.
pub open spec fn related_first(
    g: GraphV,
    sym: i64,
    mask: u64,
    side: Side,
    limit: nat,
) -> Seq<RelatedV> {
    rows::first_of(
        rows::sorted(
            rows::distinct(related_all(g, sym, mask, side)),
            rows::row_order::<RelatedRow>(),
        ),
        limit,
    )
}

/// One row, as text.
pub open spec fn related_text(sh: Seq<(Seq<char>, Seq<char>)>) -> spec_fn(RelatedV) -> Seq<
    char,
> {
    |r: RelatedV|
        r.name + " ["@ + kind_text(r.kind) + "] at "@ + shortened(sh, r.path) + ":"@ + text::dec(
            r.line as int,
        ) + " ["@ + role_list(r.roles) + "]  usr: "@ + r.usr
}

/// What is related to the symbol `sym`, which is at the end `side`, by a
/// relation with a bit of `mask`, and how many lines tell of it.
pub fn related_rows(
    graph: &Graph,
    sh: &Shortener,
    sym: i64,
    mask: u64,
    side: Side,
    limit: usize,
) -> (r: (OccRows, usize))
    requires
        graph.wf(),
    ensures
        r.0.total as nat == related_total(graph@, sym, mask, side),
        r.1 as nat == related_lines(graph@, sym, mask, side),
        text::texts(r.0.lines@) == related_first(
            graph@,
            sym,
            mask,
            side,
            limit as nat,
        ).map_values(related_text(sh@)),
{
    let ghost all = graph@.relations;
    let ghost f = pick_related(graph@, sym, mask, side);
    let mut out: Vec<RelatedRow> = Vec::new();
    let mut keys: Vec<String> = Vec::new();
    let mut i: usize = 0;
    proof {
        assert(rows::said_of(out@) =~= Seq::<RelatedV>::empty());
        assert(text::texts(keys@) =~= rows::said_of(out@).map_values(related_key()));
        assert(db::values(graph.occurrences@) =~= graph.occurrences@);
        rows::lemma_gather_start(all, f);
    }
    while i < graph.relations.len()
        invariant
            graph.wf(),
            db::values(graph.occurrences@) == graph.occurrences@,
            all == graph.relations@,
            i <= all.len(),
            f == pick_related(graph@, sym, mask, side),
            rows::said_of(out@) + rows::gather(all.skip(i as int), f) == rows::gather(all, f),
            text::texts(keys@) == rows::said_of(out@).map_values(related_key()),
        decreases all.len() - i,
    {
        let ghost o = out@;
        let ghost ks = keys@;
        proof {
            rows::lemma_gather_step(all, f, rows::said_of(out@), i as int);
        }
        let rel = graph.relations[i];
        if test_role(rel.roles, mask) {
            if let Some(j) = find_id(&graph.occurrences, rel.occ_id) {
                let occ = graph.occurrences[j];
                if symbol_at(side, &occ, &rel) == sym {
                    let other = symbol_at(other_side(side), &occ, &rel);
                    if let Some(m) = find_id(&graph.symbols, other) {
                        if let Some(p) = find_path(graph, &occ) {
                            let s = &graph.symbols[m];
                            let mut key = s.usr.clone();
                            key.append("@");
                            key.append(p.as_str());
                            key.append(":");
                            push_int(&mut key, occ.line);
                            let row = RelatedRow {
                                name: s.name.clone(),
                                kind: s.kind,
                                usr: s.usr.clone(),
                                path: p.clone(),
                                line: occ.line,
                                roles: occ.roles,
                            };
                            let ghost said = row.said();
                            let ghost k = key@;
                            assert(k == related_key()(said));
                            out.push(row);
                            keys.push(key);
                            assert(rows::said_of(out@) =~= rows::said_of(o).push(said));
                            assert(text::texts(keys@) =~= text::texts(ks).push(k));
                        }
                    }
                }
            }
        }
        assert(rows::said_of(out@) =~= rows::said_of(o) + f(all[i as int]));
        assert(text::texts(keys@) =~= rows::said_of(out@).map_values(related_key()));
        i = i + 1;
    }
    proof {
        rows::lemma_gather_end(all, f, rows::said_of(out@));
    }
    let places = rows::count_distinct(&keys);
    let once = distinct_rows(out);
    let total = once.len();
    assert(rows::said_of(once@).len() == total);
    let mut found = sorted_rows(once);
    limit_rows(&mut found, limit);
    let mut lines: Vec<String> = Vec::new();
    let mut j: usize = 0;
    while j < found.len()
        invariant
            j <= found.len(),
            lines.len() == j,
            forall|m: int|
                0 <= m < j ==> (#[trigger] lines@[m])@ == related_text(sh@)(found@[m].said()),
        decreases found.len() - j,
    {
        let mut line = found[j].name.clone();
        line.append(" [");
        line.append(kind_name(found[j].kind));
        line.append("] at ");
        line.append(sh.s(found[j].path.as_str()).as_str());
        line.append(":");
        push_int(&mut line, found[j].line);
        line.append(" [");
        line.append(roles_text(found[j].roles).as_str());
        line.append("]  usr: ");
        line.append(found[j].usr.as_str());
        lines.push(line);
        j = j + 1;
    }
    assert(text::texts(lines@) =~= rows::said_of(found@).map_values(related_text(sh@)));
    (OccRows { total, lines }, places)
}

/// The relations of an occurrence to the symbol that it is inside of.
pub const ROLES_INSIDE: u64 = ROLE_REL_CALLEDBY | ROLE_REL_CONTAINEDBY;

/// What `callers` or `callees` answers for one symbol.
pub open spec fn related_block(
    g: GraphV,
    sh: Seq<(Seq<char>, Seq<char>)>,
    title: Seq<char>,
    side: Side,
    limit: nat,
) -> spec_fn(SymV) -> Seq<char> {
    |s: SymV|
        title + s.name + " ("@ + text::dec_nat(related_lines(g, s.id, ROLES_INSIDE, side))
            + ") — usr: "@ + s.usr + "\n"@ + listing(
            related_total(g, s.id, ROLES_INSIDE, side),
            related_first(g, s.id, ROLES_INSIDE, side, limit).map_values(related_text(sh)),
        )
}

fn answer_related(
    graph: &Graph,
    sh: &Shortener,
    query: &str,
    title: &str,
    side: Side,
    limit: usize,
) -> (r: String)
    requires
        graph.wf(),
    ensures
        r@ == answer(
            targets(graph@, sh@, query@),
            related_block(graph@, sh@, title@, side, limit as nat),
        ),
{
    let syms = match resolve_targets(graph, sh, query) {
        Ok(syms) => syms,
        Err(msg) => {
            return msg;
        },
    };
    let ghost all = rows::said_of(syms@);
    let ghost f = related_block(graph@, sh@, title@, side, limit as nat);
    let mut out = String::new();
    let mut i: usize = 0;
    proof {
        rows::lemma_gather_start(all, f);
    }
    while i < syms.len()
        invariant
            graph.wf(),
            all == rows::said_of(syms@),
            i <= syms.len(),
            f == related_block(graph@, sh@, title@, side, limit as nat),
            out@ + rows::gather(all.skip(i as int), f) == rows::gather(all, f),
        decreases syms.len() - i,
    {
        let ghost o = out@;
        proof {
            rows::lemma_gather_step(all, f, out@, i as int);
        }
        let (found, places) = related_rows(graph, sh, syms[i].id, ROLES_INSIDE, side, limit);
        let mut block = title.to_owned();
        block.append(syms[i].name.as_str());
        block.append(" (");
        push_nat(&mut block, places as u128);
        block.append(") — usr: ");
        block.append(syms[i].usr.as_str());
        block.append("\n");
        found.render(&mut block);
        assert(block@ == f(all[i as int]));
        out.append(block.as_str());
        i = i + 1;
    }
    proof {
        rows::lemma_gather_end(all, f, out@);
    }
    out
}

/// Where the symbols that a question stands for are called or referred to,
/// and inside of what.
pub fn callers(graph: &Graph, sh: &Shortener, query: &str, limit: usize) -> (r: String)
    requires
        graph.wf(),
    ensures
        r@ == answer(
            targets(graph@, sh@, query@),
            related_block(
                graph@,
                sh@,
                "callers/referencers of "@,
                Side::Occurring,
                limit as nat,
            ),
        ),
{
    answer_related(graph, sh, query, "callers/referencers of ", Side::Occurring, limit)
}

/// What is called or referred to inside of the symbols that a question stands
/// for.
pub fn callees(graph: &Graph, sh: &Shortener, query: &str, limit: usize) -> (r: String)
    requires
        graph.wf(),
    ensures
        r@ == answer(
            targets(graph@, sh@, query@),
            related_block(graph@, sh@, "callees/uses inside "@, Side::Related, limit as nat),
        ),
{
    answer_related(graph, sh, query, "callees/uses inside ", Side::Related, limit)
}

// ---- hierarchy ----------------------------------------------------------

/// A symbol, without where it is.
pub struct NameRow {
    pub name: String,
    pub kind: i64,
    pub usr: String,
}

pub struct NameV {
    pub name: Seq<char>,
    pub kind: i64,
    pub usr: Seq<char>,
}

impl Row for NameRow {
    type Said = NameV;

    open spec fn said(&self) -> NameV {
        NameV { name: self.name@, kind: self.kind, usr: self.usr@ }
    }
}

impl Distinct for NameRow {
    open spec fn group_of(a: NameV) -> i64 {
        a.kind
    }

    fn group(&self) -> (r: i64) {
        self.kind
    }

    fn same(&self, other: &NameRow) -> (r: bool) {
        self.kind == other.kind && self.usr == other.usr && self.name == other.name
    }
}

/// What a relation adds to the symbols that are related to the symbol `sym`,
/// which is at the end `side`.
pub open spec fn pick_name(g: GraphV, sym: i64, bit: u64, side: Side) -> spec_fn(
    RelationRow,
) -> Seq<NameV> {
    |r: RelationRow|
        match db::by_id(g.occurrences, r.occ_id) {
            Some(o) if ffi::has_role(r.roles, bit) && end_of(side, o, r) == sym => match db::by_id(
                g.symbols,
                end_of(opposite(side), o, r),
            ) {
                Some(s) => seq![NameV { name: s.name, kind: s.kind, usr: s.usr }],
                None => Seq::empty(),
            },
            _ => Seq::empty(),
        }
}

/// The symbols that are related to a symbol.
pub open spec fn related_names(g: GraphV, sym: i64, bit: u64, side: Side) -> Seq<NameV> {
    rows::distinct(rows::gather(g.relations, pick_name(g, sym, bit, side)))
}

/// One symbol, as text.
pub open spec fn name_text() -> spec_fn(NameV) -> Seq<char> {
    |n: NameV| sym_line(n.name, n.kind, n.usr)
}

fn find_related_names(graph: &Graph, sym: i64, bit: u64, side: Side, limit: usize) -> (r: OccRows)
    requires
        graph.wf(),
    ensures
        r.total as nat == related_names(graph@, sym, bit, side).len(),
        text::texts(r.lines@) == rows::first_of(
            related_names(graph@, sym, bit, side),
            limit as nat,
        ).map_values(name_text()),
{
    let ghost all = graph@.relations;
    let ghost f = pick_name(graph@, sym, bit, side);
    let mut out: Vec<NameRow> = Vec::new();
    let mut i: usize = 0;
    proof {
        assert(rows::said_of(out@) =~= Seq::<NameV>::empty());
        assert(db::values(graph.occurrences@) =~= graph.occurrences@);
        rows::lemma_gather_start(all, f);
    }
    while i < graph.relations.len()
        invariant
            graph.wf(),
            db::values(graph.occurrences@) == graph.occurrences@,
            all == graph.relations@,
            i <= all.len(),
            f == pick_name(graph@, sym, bit, side),
            rows::said_of(out@) + rows::gather(all.skip(i as int), f) == rows::gather(all, f),
        decreases all.len() - i,
    {
        let ghost o = out@;
        proof {
            rows::lemma_gather_step(all, f, rows::said_of(out@), i as int);
        }
        let rel = graph.relations[i];
        if test_role(rel.roles, bit) {
            if let Some(j) = find_id(&graph.occurrences, rel.occ_id) {
                let occ = graph.occurrences[j];
                if symbol_at(side, &occ, &rel) == sym {
                    let other = symbol_at(other_side(side), &occ, &rel);
                    if let Some(m) = find_id(&graph.symbols, other) {
                        let s = &graph.symbols[m];
                        out.push(
                            NameRow { name: s.name.clone(), kind: s.kind, usr: s.usr.clone() },
                        );
                    }
                }
            }
        }
        assert(rows::said_of(out@) =~= rows::said_of(o) + f(all[i as int]));
        i = i + 1;
    }
    proof {
        rows::lemma_gather_end(all, f, rows::said_of(out@));
    }
    let mut found = distinct_rows(out);
    let total = found.len();
    assert(rows::said_of(found@).len() == total);
    limit_rows(&mut found, limit);
    let mut lines: Vec<String> = Vec::new();
    let mut j: usize = 0;
    while j < found.len()
        invariant
            j <= found.len(),
            lines.len() == j,
            forall|m: int|
                0 <= m < j ==> (#[trigger] lines@[m])@ == name_text()(found@[m].said()),
        decreases found.len() - j,
    {
        lines.push(write_sym(&found[j].name, found[j].kind, &found[j].usr));
        j = j + 1;
    }
    assert(text::texts(lines@) =~= rows::said_of(found@).map_values(name_text()));
    OccRows { total, lines }
}

/// A section of an answer to `hierarchy`, with the first `limit` of the names:
/// nothing where there are no names.
pub open spec fn section(title: Seq<char>, names: Seq<NameV>, limit: nat) -> Seq<char> {
    let shown = rows::first_of(names, limit);
    if names.len() == 0 {
        Seq::empty()
    } else {
        title + " ("@ + text::dec_nat(shown.len()) + "):\n"@ + listing(
            names.len(),
            shown.map_values(name_text()),
        )
    }
}

/// What `hierarchy` answers for one symbol. The occurrence of a base in the
/// list of the bases of a class is related to the class; the occurrence of a
/// method that overrides another is related to the other.
pub open spec fn hierarchy_block(g: GraphV, limit: nat) -> spec_fn(SymV) -> Seq<char> {
    |s: SymV|
        sym_line(s.name, s.kind, s.usr) + "\n"@ + section(
            "bases"@,
            related_names(g, s.id, ROLE_REL_BASEOF, Side::Related),
            limit,
        ) + section(
            "derived"@,
            related_names(g, s.id, ROLE_REL_BASEOF, Side::Occurring),
            limit,
        ) + section(
            "overrides (this overrides)"@,
            related_names(g, s.id, ROLE_REL_OVERRIDEOF, Side::Occurring),
            limit,
        ) + section(
            "overridden-by"@,
            related_names(g, s.id, ROLE_REL_OVERRIDEOF, Side::Related),
            limit,
        ) + section(
            "specializations"@,
            related_names(g, s.id, ROLE_REL_SPECIALIZATIONOF, Side::Related),
            limit,
        )
}

fn write_section(
    graph: &Graph,
    title: &str,
    sym: i64,
    bit: u64,
    side: Side,
    limit: usize,
    out: &mut String,
)
    requires
        graph.wf(),
    ensures
        final(out)@ == old(out)@ + section(
            title@,
            related_names(graph@, sym, bit, side),
            limit as nat,
        ),
{
    let found = find_related_names(graph, sym, bit, side, limit);
    let ghost names = related_names(graph@, sym, bit, side);
    let ghost shown = rows::first_of(names, limit as nat);
    assert(text::texts(found.lines@).len() == shown.map_values(name_text()).len());
    if found.total > 0 {
        out.append(title);
        out.append(" (");
        push_nat(out, found.lines.len() as u128);
        out.append("):\n");
        found.render(out);
    }
    assert(out@ =~= old(out)@ + section(title@, names, limit as nat));
}

/// The bases, derived classes, overridden and overriding methods and
/// specializations of the symbols that a question stands for.
pub fn hierarchy(graph: &Graph, sh: &Shortener, query: &str, limit: usize) -> (r: String)
    requires
        graph.wf(),
    ensures
        r@ == answer(targets(graph@, sh@, query@), hierarchy_block(graph@, limit as nat)),
{
    let syms = match resolve_targets(graph, sh, query) {
        Ok(syms) => syms,
        Err(msg) => {
            return msg;
        },
    };
    let ghost all = rows::said_of(syms@);
    let ghost f = hierarchy_block(graph@, limit as nat);
    let mut out = String::new();
    let mut i: usize = 0;
    proof {
        rows::lemma_gather_start(all, f);
    }
    while i < syms.len()
        invariant
            graph.wf(),
            all == rows::said_of(syms@),
            i <= syms.len(),
            f == hierarchy_block(graph@, limit as nat),
            out@ + rows::gather(all.skip(i as int), f) == rows::gather(all, f),
        decreases syms.len() - i,
    {
        let ghost o = out@;
        proof {
            rows::lemma_gather_step(all, f, out@, i as int);
        }
        let id = syms[i].id;
        let mut block = write_sym(&syms[i].name, syms[i].kind, &syms[i].usr);
        block.append("\n");
        write_section(graph, "bases", id, ROLE_REL_BASEOF, Side::Related, limit, &mut block);
        write_section(graph, "derived", id, ROLE_REL_BASEOF, Side::Occurring, limit, &mut block);
        write_section(
            graph,
            "overrides (this overrides)",
            id,
            ROLE_REL_OVERRIDEOF,
            Side::Occurring,
            limit,
            &mut block,
        );
        write_section(
            graph,
            "overridden-by",
            id,
            ROLE_REL_OVERRIDEOF,
            Side::Related,
            limit,
            &mut block,
        );
        write_section(
            graph,
            "specializations",
            id,
            ROLE_REL_SPECIALIZATIONOF,
            Side::Related,
            limit,
            &mut block,
        );
        assert(block@ == f(all[i as int]));
        out.append(block.as_str());
        i = i + 1;
    }
    proof {
        rows::lemma_gather_end(all, f, out@);
    }
    out
}

// ---- members ------------------------------------------------------------

/// Names that the reflection macros of Unreal Engine add to every class.
pub open spec fn macro_names() -> Seq<Seq<char>> {
    seq![
        "StaticClass"@,
        "StaticPackage"@,
        "StaticClassFlags"@,
        "StaticClassCastFlags"@,
        "StaticAllClassCastFlags"@,
        "GetPrivateStaticClass"@,
        "Super"@,
        "ThisClass"@,
        "operator new"@,
        "operator delete"@,
        "WithinClass"@,
    ]
}

/// Whether a name comes from the reflection macros rather than from a person:
/// it is one of those that they add, or starts like one that they make.
pub open spec fn is_noise(name: Seq<char>) -> bool {
    ||| macro_names().contains(name)
    ||| "exec"@.is_prefix_of(name)
    ||| "StaticRegisterNatives"@.is_prefix_of(name)
    ||| "Z_Construct"@.is_prefix_of(name)
    ||| "__"@.is_prefix_of(name)
}

/// Whether a name comes from the reflection macros rather than from a person.
pub fn test_noise(name: &str) -> (r: bool)
    ensures
        r == is_noise(name@),
{
    let ghost all = macro_names();
    if text::same_text(name, "StaticClass") {
        assert(all[0] == name@);
        return true;
    }
    if text::same_text(name, "StaticPackage") {
        assert(all[1] == name@);
        return true;
    }
    if text::same_text(name, "StaticClassFlags") {
        assert(all[2] == name@);
        return true;
    }
    if text::same_text(name, "StaticClassCastFlags") {
        assert(all[3] == name@);
        return true;
    }
    if text::same_text(name, "StaticAllClassCastFlags") {
        assert(all[4] == name@);
        return true;
    }
    if text::same_text(name, "GetPrivateStaticClass") {
        assert(all[5] == name@);
        return true;
    }
    if text::same_text(name, "Super") {
        assert(all[6] == name@);
        return true;
    }
    if text::same_text(name, "ThisClass") {
        assert(all[7] == name@);
        return true;
    }
    if text::same_text(name, "operator new") {
        assert(all[8] == name@);
        return true;
    }
    if text::same_text(name, "operator delete") {
        assert(all[9] == name@);
        return true;
    }
    if text::same_text(name, "WithinClass") {
        assert(all[10] == name@);
        return true;
    }
    has_prefix(name, "exec") || has_prefix(name, "StaticRegisterNatives")
        || has_prefix(name, "Z_Construct") || has_prefix(name, "__")
}

/// Whether symbols of the kind have members.
pub open spec fn is_container(kind: i64) -> bool {
    kind == 2 || kind == 5 || kind == 6 || kind == 7 || kind == 8 || kind == 10
}

/// What a symbol adds to those that `members` answers for.
pub open spec fn pick_container() -> spec_fn(SymV) -> Seq<SymV> {
    |s: SymV|
        if is_container(s.kind) {
            seq![s]
        } else {
            Seq::empty()
        }
}

/// The symbols that `members` answers for: where some can have members, only
/// those.
pub open spec fn member_targets(t: Result<Seq<SymV>, Seq<char>>) -> Result<
    Seq<SymV>,
    Seq<char>,
> {
    match t {
        Ok(syms) => {
            let c = rows::gather(syms, pick_container());
            if c.len() > 0 {
                Ok(c)
            } else {
                Ok(syms)
            }
        },
        Err(msg) => Err(msg),
    }
}

/// What a relation adds to the members of a symbol.
pub open spec fn pick_member(g: GraphV, sym: i64) -> spec_fn(RelationRow) -> Seq<SymV> {
    |r: RelationRow|
        match db::by_id(g.occurrences, r.occ_id) {
            Some(o) if ffi::has_role(r.roles, ROLE_REL_CHILDOF) && r.symbol_id == sym =>
                match db::by_id(g.symbols, o.symbol_id) {
                Some(s) if !is_noise(s.name) => seq![sym_of(s)],
                _ => Seq::empty(),
            },
            _ => Seq::empty(),
        }
}

/// The members of a symbol.
pub open spec fn all_members(g: GraphV, sym: i64) -> Seq<SymV> {
    rows::distinct(rows::gather(g.relations, pick_member(g, sym)))
}

/// The first `limit` members of a symbol.
pub open spec fn members_of(g: GraphV, sym: i64, limit: nat) -> Seq<SymV> {
    rows::first_of(all_members(g, sym), limit)
}

/// A line about a member, and where it stands in the list.
pub struct MemberRow {
    pub text: String,
    pub path: String,
    pub line: i64,
}

pub struct MemberV {
    pub text: Seq<char>,
    pub path: Seq<char>,
    pub line: i64,
}

impl Row for MemberRow {
    type Said = MemberV;

    open spec fn said(&self) -> MemberV {
        MemberV { text: self.text@, path: self.path@, line: self.line }
    }
}

/// Members are listed by where they are defined, so that they come in the order
/// in which a header declares them.
impl Ordered for MemberRow {
    open spec fn not_after(a: MemberV, b: MemberV) -> bool {
        place_le(a.path, a.line, b.path, b.line)
    }

    proof fn any_two(a: MemberV, b: MemberV) {
        lemma_place_le(a.path, a.line, b.path, b.line, a.path, a.line);
    }

    proof fn no_circles(a: MemberV, b: MemberV, c: MemberV) {
        lemma_place_le(a.path, a.line, b.path, b.line, c.path, c.line);
    }

    fn in_order(&self, other: &MemberRow) -> (r: bool) {
        is_place_le(&self.path, self.line, &other.path, other.line)
    }
}

/// The line about a member: its name and kind, where it is first defined, and
/// its USR.
pub open spec fn member_text(s: SymV, at: Seq<char>) -> Seq<char> {
    s.name + " ["@ + kind_text(s.kind) + "] "@ + at + "  usr: "@ + s.usr
}

/// The line about a member, and its place in the list: that of its first
/// definition, or, where there is none, the line 0 under `(decl only)`.
pub open spec fn member_row(g: GraphV, sh: Seq<(Seq<char>, Seq<char>)>) -> spec_fn(
    SymV,
) -> MemberV {
    |s: SymV|
        {
            let places = definition_places(g, s.id, 1);
            if places.len() == 0 {
                MemberV {
                    text: member_text(s, "(decl only)"@),
                    path: "(decl only)"@,
                    line: 0,
                }
            } else {
                MemberV {
                    text: member_text(s, place_text(sh, places[0])),
                    path: shortened(sh, places[0].path),
                    line: places[0].line,
                }
            }
        }
}

/// The lines about the members of a symbol, in the order of the list.
pub open spec fn member_rows(
    g: GraphV,
    sh: Seq<(Seq<char>, Seq<char>)>,
    sym: i64,
    limit: nat,
) -> Seq<MemberV> {
    rows::sorted(
        members_of(g, sym, limit).map_values(member_row(g, sh)),
        rows::row_order::<MemberRow>(),
    )
}

/// What `members` answers for one symbol.
pub open spec fn members_block(
    g: GraphV,
    sh: Seq<(Seq<char>, Seq<char>)>,
    limit: nat,
) -> spec_fn(SymV) -> Seq<char> {
    |s: SymV|
        "members of "@ + s.name + " ["@ + kind_text(s.kind) + "] ("@ + text::dec_nat(
            members_of(g, s.id, limit).len(),
        ) + ") — usr: "@ + s.usr + "\n"@ + listing(
            all_members(g, s.id).len(),
            member_rows(g, sh, s.id, limit).map_values(|m: MemberV| m.text),
        )
}

fn test_container(kind: i64) -> (r: bool)
    ensures
        r == is_container(kind),
{
    kind == 2 || kind == 5 || kind == 6 || kind == 7 || kind == 8 || kind == 10
}

fn keep_containers(syms: Vec<Sym>) -> (r: Vec<Sym>)
    ensures
        rows::said_of(r@) == ({
            let c = rows::gather(rows::said_of(syms@), pick_container());
            if c.len() > 0 {
                c
            } else {
                rows::said_of(syms@)
            }
        }),
{
    let ghost all = rows::said_of(syms@);
    let ghost f = pick_container();
    let mut out: Vec<Sym> = Vec::new();
    let mut i: usize = 0;
    proof {
        assert(rows::said_of(out@) =~= Seq::<SymV>::empty());
        rows::lemma_gather_start(all, f);
    }
    while i < syms.len()
        invariant
            all == rows::said_of(syms@),
            i <= syms.len(),
            f == pick_container(),
            rows::said_of(out@) + rows::gather(all.skip(i as int), f) == rows::gather(all, f),
        decreases syms.len() - i,
    {
        let ghost o = out@;
        proof {
            rows::lemma_gather_step(all, f, rows::said_of(out@), i as int);
        }
        if test_container(syms[i].kind) {
            out.push(
                Sym {
                    id: syms[i].id,
                    usr: syms[i].usr.clone(),
                    name: syms[i].name.clone(),
                    kind: syms[i].kind,
                },
            );
        }
        assert(rows::said_of(out@) =~= rows::said_of(o) + f(all[i as int]));
        i = i + 1;
    }
    proof {
        rows::lemma_gather_end(all, f, rows::said_of(out@));
    }
    assert(rows::said_of(out@).len() == out@.len());
    if out.len() > 0 {
        out
    } else {
        syms
    }
}

fn find_members(graph: &Graph, sym: i64) -> (r: Vec<Sym>)
    requires
        graph.wf(),
    ensures
        rows::said_of(r@) == all_members(graph@, sym),
{
    let ghost all = graph@.relations;
    let ghost f = pick_member(graph@, sym);
    let mut out: Vec<Sym> = Vec::new();
    let mut i: usize = 0;
    proof {
        assert(rows::said_of(out@) =~= Seq::<SymV>::empty());
        assert(db::values(graph.occurrences@) =~= graph.occurrences@);
        rows::lemma_gather_start(all, f);
    }
    while i < graph.relations.len()
        invariant
            graph.wf(),
            db::values(graph.occurrences@) == graph.occurrences@,
            all == graph.relations@,
            i <= all.len(),
            f == pick_member(graph@, sym),
            rows::said_of(out@) + rows::gather(all.skip(i as int), f) == rows::gather(all, f),
        decreases all.len() - i,
    {
        let ghost o = out@;
        proof {
            rows::lemma_gather_step(all, f, rows::said_of(out@), i as int);
        }
        let rel = graph.relations[i];
        if rel.symbol_id == sym && test_role(rel.roles, ROLE_REL_CHILDOF) {
            if let Some(j) = find_id(&graph.occurrences, rel.occ_id) {
                if let Some(m) = find_id(&graph.symbols, graph.occurrences[j].symbol_id) {
                    if !test_noise(graph.symbols[m].name.as_str()) {
                        out.push(make_sym(&graph.symbols[m]));
                    }
                }
            }
        }
        assert(rows::said_of(out@) =~= rows::said_of(o) + f(all[i as int]));
        i = i + 1;
    }
    proof {
        rows::lemma_gather_end(all, f, rows::said_of(out@));
    }
    distinct_rows(out)
}

fn write_member(s: &Sym, at: &str) -> (r: String)
    ensures
        r@ == member_text(s@, at@),
{
    let mut out = s.name.clone();
    out.append(" [");
    out.append(kind_name(s.kind));
    out.append("] ");
    out.append(at);
    out.append("  usr: ");
    out.append(s.usr.as_str());
    out
}

fn make_member_row(graph: &Graph, sh: &Shortener, s: &Sym) -> (r: MemberRow)
    requires
        graph.wf(),
    ensures
        r.said() == member_row(graph@, sh@)(s@),
{
    let places = find_definitions(graph, s.id, 1);
    assert(rows::said_of(places@).len() == places@.len());
    if places.len() == 0 {
        MemberRow {
            text: write_member(s, "(decl only)"),
            path: "(decl only)".to_owned(),
            line: 0,
        }
    } else {
        assert(rows::said_of(places@)[0] == places@[0].said());
        let at = write_place(sh, &places[0]);
        MemberRow {
            text: write_member(s, at.as_str()),
            path: sh.s(places[0].path.as_str()),
            line: places[0].line,
        }
    }
}

fn write_members(graph: &Graph, sh: &Shortener, found: &Vec<Sym>) -> (r: Vec<String>)
    requires
        graph.wf(),
    ensures
        text::texts(r@) == rows::sorted(
            rows::said_of(found@).map_values(member_row(graph@, sh@)),
            rows::row_order::<MemberRow>(),
        ).map_values(|m: MemberV| m.text),
{
    let mut items: Vec<MemberRow> = Vec::new();
    let mut i: usize = 0;
    while i < found.len()
        invariant
            graph.wf(),
            i <= found.len(),
            items.len() == i,
            forall|k: int|
                0 <= k < i ==> (#[trigger] items@[k]).said() == member_row(graph@, sh@)(
                    found@[k]@,
                ),
        decreases found.len() - i,
    {
        items.push(make_member_row(graph, sh, &found[i]));
        i = i + 1;
    }
    assert(rows::said_of(items@) =~= rows::said_of(found@).map_values(member_row(graph@, sh@)));
    let sorted = sorted_rows(items);
    let mut lines: Vec<String> = Vec::new();
    let mut j: usize = 0;
    while j < sorted.len()
        invariant
            j <= sorted.len(),
            lines.len() == j,
            forall|k: int| 0 <= k < j ==> (#[trigger] lines@[k])@ == sorted@[k].said().text,
        decreases sorted.len() - j,
    {
        lines.push(sorted[j].text.clone());
        j = j + 1;
    }
    assert(text::texts(lines@) =~= rows::said_of(sorted@).map_values(|m: MemberV| m.text));
    lines
}

/// The members of the classes, structs, enums and namespaces that a question
/// stands for, without those that the reflection macros add.
pub fn members(graph: &Graph, sh: &Shortener, query: &str, limit: usize) -> (r: String)
    requires
        graph.wf(),
    ensures
        r@ == answer(
            member_targets(targets(graph@, sh@, query@)),
            members_block(graph@, sh@, limit as nat),
        ),
{
    let syms = match resolve_targets(graph, sh, query) {
        Ok(syms) => keep_containers(syms),
        Err(msg) => {
            return msg;
        },
    };
    let ghost all = rows::said_of(syms@);
    let ghost f = members_block(graph@, sh@, limit as nat);
    let mut out = String::new();
    let mut i: usize = 0;
    proof {
        rows::lemma_gather_start(all, f);
    }
    while i < syms.len()
        invariant
            graph.wf(),
            all == rows::said_of(syms@),
            i <= syms.len(),
            f == members_block(graph@, sh@, limit as nat),
            out@ + rows::gather(all.skip(i as int), f) == rows::gather(all, f),
        decreases syms.len() - i,
    {
        let ghost o = out@;
        proof {
            rows::lemma_gather_step(all, f, out@, i as int);
        }
        let mut found = find_members(graph, syms[i].id);
        let total = found.len();
        assert(rows::said_of(found@).len() == total);
        limit_rows(&mut found, limit);
        assert(rows::said_of(found@).len() == found@.len());
        let mut block = "members of ".to_owned();
        block.append(syms[i].name.as_str());
        block.append(" [");
        block.append(kind_name(syms[i].kind));
        block.append("] (");
        push_nat(&mut block, found.len() as u128);
        block.append(") — usr: ");
        block.append(syms[i].usr.as_str());
        block.append("\n");
        let listed = OccRows { total, lines: write_members(graph, sh, &found) };
        listed.render(&mut block);
        assert(block@ == f(all[i as int]));
        out.append(block.as_str());
        i = i + 1;
    }
    proof {
        rows::lemma_gather_end(all, f, out@);
    }
    out
}

// ---- outline ------------------------------------------------------------

impl Row for FileRow {
    type Said = FileV;

    open spec fn said(&self) -> FileV {
        self@
    }
}

/// Files are listed with the shorter paths first.
impl Ordered for FileRow {
    open spec fn not_after(a: FileV, b: FileV) -> bool {
        text::text_length(a.path) <= text::text_length(b.path)
    }

    proof fn any_two(a: FileV, b: FileV) {
    }

    proof fn no_circles(a: FileV, b: FileV, c: FileV) {
    }

    fn in_order(&self, other: &FileRow) -> (r: bool) {
        text::chars_before_nul(self.path.as_str()).len() <= text::chars_before_nul(
            other.path.as_str(),
        ).len()
    }
}

/// How many files an outline is given of at most.
pub const OUTLINE_FILES: usize = 4;

/// The kind of parameters, which have no place in an outline.
pub const KIND_PARAMETER: i64 = 25;

/// What a file adds to those whose paths hold the text.
pub open spec fn pick_file(t: Seq<char>) -> spec_fn(FileV) -> Seq<FileV> {
    |f: FileV|
        if text::holds_nocase(f.path, t) {
            seq![f]
        } else {
            Seq::empty()
        }
}

/// The files that an outline is given of: those whose paths hold the text,
/// shorter paths first.
pub open spec fn outline_files(g: GraphV, t: Seq<char>) -> Seq<FileV> {
    rows::first_of(
        rows::sorted(rows::gather(g.files, pick_file(t)), rows::row_order::<FileRow>()),
        OUTLINE_FILES as nat,
    )
}

/// Whether an occurrence declares or defines its symbol in the file, and a
/// person wrote it.
pub open spec fn declares(g: GraphV, file: i64, o: OccRow) -> bool {
    &&& db::by_id(g.records, o.record_id) matches Some(r)
    &&& r.file_id == file
    &&& ffi::has_role(o.roles, ROLE_DEFINITION | ROLE_DECLARATION)
    &&& !ffi::has_role(o.roles, ROLE_IMPLICIT)
}

/// The least line among `occs` where the symbol is declared or defined in the
/// file.
pub open spec fn first_line(g: GraphV, file: i64, occs: Seq<OccRow>, sym: i64) -> Option<i64>
    decreases occs.len(),
{
    if occs.len() == 0 {
        None
    } else {
        let before = first_line(g, file, occs.drop_last(), sym);
        let o = occs.last();
        if o.symbol_id == sym && declares(g, file, o) {
            match before {
                Some(l) if l <= o.line => Some(l),
                _ => Some(o.line),
            }
        } else {
            before
        }
    }
}

/// A symbol that a file declares, and the first line where it does.
pub struct OutlineRow {
    pub line: i64,
    pub name: String,
    pub kind: i64,
    pub usr: String,
}

pub struct OutlineV {
    pub line: i64,
    pub name: Seq<char>,
    pub kind: i64,
    pub usr: Seq<char>,
}

impl Row for OutlineRow {
    type Said = OutlineV;

    open spec fn said(&self) -> OutlineV {
        OutlineV { line: self.line, name: self.name@, kind: self.kind, usr: self.usr@ }
    }
}

/// An outline is in the order of the lines.
impl Ordered for OutlineRow {
    open spec fn not_after(a: OutlineV, b: OutlineV) -> bool {
        a.line <= b.line
    }

    proof fn any_two(a: OutlineV, b: OutlineV) {
    }

    proof fn no_circles(a: OutlineV, b: OutlineV, c: OutlineV) {
    }

    fn in_order(&self, other: &OutlineRow) -> (r: bool) {
        self.line <= other.line
    }
}

/// What a symbol adds to the outline of a file.
pub open spec fn pick_outline(g: GraphV, file: i64) -> spec_fn(SymbolV) -> Seq<OutlineV> {
    |s: SymbolV|
        match first_line(g, file, g.occurrences, s.id) {
            Some(l) if s.kind != KIND_PARAMETER && !is_noise(s.name) => seq![
                OutlineV { line: l, name: s.name, kind: s.kind, usr: s.usr },
            ],
            _ => Seq::empty(),
        }
}

/// What a file declares and defines.
pub open spec fn outline_all(g: GraphV, file: i64) -> Seq<OutlineV> {
    rows::gather(g.symbols, pick_outline(g, file))
}

/// The first `limit` lines of the outline of a file.
pub open spec fn outline_rows(g: GraphV, file: i64, limit: nat) -> Seq<OutlineV> {
    rows::first_of(
        rows::sorted(outline_all(g, file), rows::row_order::<OutlineRow>()),
        limit,
    )
}

/// One line of an outline.
pub open spec fn outline_text() -> spec_fn(OutlineV) -> Seq<char> {
    |r: OutlineV|
        text::dec(r.line as int) + ": "@ + r.name + " ["@ + kind_text(r.kind) + "]  usr: "@
            + r.usr
}

/// What `outline` answers for one file.
pub open spec fn outline_block(
    g: GraphV,
    sh: Seq<(Seq<char>, Seq<char>)>,
    limit: nat,
) -> spec_fn(FileV) -> Seq<char> {
    |f: FileV|
        "outline of "@ + shortened(sh, f.path) + " ("@ + text::dec_nat(
            outline_rows(g, f.id, limit).len(),
        ) + " symbols):\n"@ + listing(
            outline_all(g, f.id).len(),
            outline_rows(g, f.id, limit).map_values(outline_text()),
        )
}

/// The answer to `outline`.
pub open spec fn outlined(
    g: GraphV,
    sh: Seq<(Seq<char>, Seq<char>)>,
    query: Seq<char>,
    limit: nat,
) -> Seq<char> {
    let files = outline_files(g, query);
    if files.len() == 0 {
        "no indexed file matches: "@ + query
    } else {
        rows::gather(files, outline_block(g, sh, limit))
    }
}

fn find_files(graph: &Graph, t: &str) -> (r: Vec<FileRow>)
    ensures
        rows::said_of(r@) == outline_files(graph@, t@),
{
    let chars = text::chars_of(t);
    let ghost all = graph@.files;
    let ghost f = pick_file(t@);
    let mut out: Vec<FileRow> = Vec::new();
    let mut i: usize = 0;
    proof {
        assert(rows::said_of(out@) =~= Seq::<FileV>::empty());
        rows::lemma_gather_start(all, f);
    }
    while i < graph.files.len()
        invariant
            chars@ == t@,
            all == graph@.files,
            all.len() == graph.files.len(),
            i <= all.len(),
            f == pick_file(t@),
            rows::said_of(out@) + rows::gather(all.skip(i as int), f) == rows::gather(all, f),
        decreases all.len() - i,
    {
        let ghost o = out@;
        proof {
            rows::lemma_gather_step(all, f, rows::said_of(out@), i as int);
            assert(all[i as int] == graph.files@[i as int]@);
        }
        if text::is_holding(&text::chars_of(graph.files[i].path.as_str()), &chars) {
            out.push(FileRow { id: graph.files[i].id, path: graph.files[i].path.clone() });
        }
        assert(rows::said_of(out@) =~= rows::said_of(o) + f(all[i as int]));
        i = i + 1;
    }
    proof {
        rows::lemma_gather_end(all, f, rows::said_of(out@));
    }
    let mut r = sorted_rows(out);
    limit_rows(&mut r, OUTLINE_FILES);
    r
}

/// Whether the map has the first line of the symbol in the file, where there is
/// one.
spec fn knows_line(
    g: GraphV,
    file: i64,
    occs: Seq<OccRow>,
    m: Map<i64, i64>,
    sym: i64,
) -> bool {
    match first_line(g, file, occs, sym) {
        Some(l) => m.contains_key(sym) && m[sym] == l,
        None => !m.contains_key(sym),
    }
}

fn find_first_lines(graph: &Graph, file: i64) -> (m: HashMapWithView<i64, i64>)
    requires
        graph.wf(),
    ensures
        forall|sym: i64| #[trigger] knows_line(graph@, file, graph@.occurrences, m@, sym),
{
    broadcast use vstd::std_specs::hash::group_hash_axioms;

    let mut m: HashMapWithView<i64, i64> = HashMapWithView::new();
    let ghost all = graph.occurrences@;
    let mut i: usize = 0;
    while i < graph.occurrences.len()
        invariant
            graph.wf(),
            all == graph.occurrences@,
            i <= all.len(),
            forall|sym: i64| #[trigger]
                knows_line(graph@, file, all.take(i as int), m@, sym),
        decreases all.len() - i,
    {
        let o = graph.occurrences[i];
        let ghost before = m@;
        proof {
            assert(all.take(i + 1).drop_last() =~= all.take(i as int));
            assert(all.take(i + 1).last() == o);
            assert(knows_line(graph@, file, all.take(i as int), before, o.symbol_id));
        }
        let here = match find_id(&graph.records, o.record_id) {
            Some(j) => graph.records[j].file_id == file && test_role(
                o.roles,
                ROLE_DEFINITION | ROLE_DECLARATION,
            ) && !test_role(o.roles, ROLE_IMPLICIT),
            None => false,
        };
        assert(here == declares(graph@, file, o));
        if here {
            let keep = match m.get(&o.symbol_id) {
                Some(l) => *l <= o.line,
                None => false,
            };
            if !keep {
                m.insert(o.symbol_id, o.line);
            }
        }
        proof {
            assert forall|sym: i64| #[trigger]
                knows_line(graph@, file, all.take(i + 1), m@, sym) by {
                assert(knows_line(graph@, file, all.take(i as int), before, sym));
            }
        }
        i = i + 1;
    }
    assert(all.take(i as int) =~= all);
    m
}

fn find_outline(graph: &Graph, file: i64, limit: usize) -> (r: OccRows)
    requires
        graph.wf(),
    ensures
        r.total as nat == outline_all(graph@, file).len(),
        text::texts(r.lines@) == outline_rows(graph@, file, limit as nat).map_values(outline_text()),
{
    let first = find_first_lines(graph, file);
    let ghost all = graph@.symbols;
    let ghost f = pick_outline(graph@, file);
    let mut out: Vec<OutlineRow> = Vec::new();
    let mut i: usize = 0;
    proof {
        assert(rows::said_of(out@) =~= Seq::<OutlineV>::empty());
        rows::lemma_gather_start(all, f);
    }
    while i < graph.symbols.len()
        invariant
            forall|sym: i64| #[trigger]
                knows_line(graph@, file, graph@.occurrences, first@, sym),
            all == graph@.symbols,
            all.len() == graph.symbols.len(),
            i <= all.len(),
            f == pick_outline(graph@, file),
            rows::said_of(out@) + rows::gather(all.skip(i as int), f) == rows::gather(all, f),
        decreases all.len() - i,
    {
        let ghost o = out@;
        let s = &graph.symbols[i];
        proof {
            rows::lemma_gather_step(all, f, rows::said_of(out@), i as int);
            assert(all[i as int] == s@);
            assert(knows_line(graph@, file, graph@.occurrences, first@, s.id));
        }
        if let Some(l) = first.get(&s.id) {
            if s.kind != KIND_PARAMETER && !test_noise(s.name.as_str()) {
                out.push(
                    OutlineRow {
                        line: *l,
                        name: s.name.clone(),
                        kind: s.kind,
                        usr: s.usr.clone(),
                    },
                );
            }
        }
        assert(rows::said_of(out@) =~= rows::said_of(o) + f(all[i as int]));
        i = i + 1;
    }
    proof {
        rows::lemma_gather_end(all, f, rows::said_of(out@));
    }
    let total = out.len();
    assert(rows::said_of(out@).len() == total);
    let mut found = sorted_rows(out);
    limit_rows(&mut found, limit);
    let mut lines: Vec<String> = Vec::new();
    let mut j: usize = 0;
    while j < found.len()
        invariant
            j <= found.len(),
            lines.len() == j,
            forall|m: int|
                0 <= m < j ==> (#[trigger] lines@[m])@ == outline_text()(found@[m].said()),
        decreases found.len() - j,
    {
        let mut line = String::new();
        push_int(&mut line, found[j].line);
        assert(line@ =~= text::dec(found@[j as int].line as int));
        line.append(": ");
        line.append(found[j].name.as_str());
        line.append(" [");
        line.append(kind_name(found[j].kind));
        line.append("]  usr: ");
        line.append(found[j].usr.as_str());
        lines.push(line);
        j = j + 1;
    }
    assert(text::texts(lines@) =~= rows::said_of(found@).map_values(outline_text()));
    OccRows { total, lines }
}

/// What the files whose paths hold `query` declare and define, in the order of
/// the lines, without what the reflection macros add.
pub fn outline(graph: &Graph, sh: &Shortener, query: &str, limit: usize) -> (r: String)
    requires
        graph.wf(),
    ensures
        r@ == outlined(graph@, sh@, query@, limit as nat),
{
    let files = find_files(graph, query);
    assert(rows::said_of(files@).len() == files@.len());
    if files.len() == 0 {
        let mut out = "no indexed file matches: ".to_owned();
        out.append(query);
        return out;
    }
    let ghost all = rows::said_of(files@);
    let ghost f = outline_block(graph@, sh@, limit as nat);
    let mut out = String::new();
    let mut i: usize = 0;
    proof {
        rows::lemma_gather_start(all, f);
    }
    while i < files.len()
        invariant
            graph.wf(),
            all == rows::said_of(files@),
            i <= files.len(),
            f == outline_block(graph@, sh@, limit as nat),
            out@ + rows::gather(all.skip(i as int), f) == rows::gather(all, f),
        decreases files.len() - i,
    {
        let ghost o = out@;
        proof {
            rows::lemma_gather_step(all, f, out@, i as int);
        }
        let found = find_outline(graph, files[i].id, limit);
        assert(text::texts(found.lines@).len() == found.lines@.len());
        let mut block = "outline of ".to_owned();
        block.append(sh.s(files[i].path.as_str()).as_str());
        block.append(" (");
        push_nat(&mut block, found.lines.len() as u128);
        block.append(" symbols):\n");
        found.render(&mut block);
        assert(block@ == f(all[i as int]));
        out.append(block.as_str());
        i = i + 1;
    }
    proof {
        rows::lemma_gather_end(all, f, out@);
    }
    out
}

// ---- stats --------------------------------------------------------------

/// How many rows the tables have, as text.
pub open spec fn counts(g: GraphV) -> Seq<char> {
    "units: "@ + text::dec_nat(g.units.len()) + "\nrecords: "@ + text::dec_nat(g.records.len())
        + "\nfiles: "@ + text::dec_nat(g.files.len()) + "\nsymbols: "@ + text::dec_nat(
        g.symbols.len(),
    ) + "\noccurrences: "@ + text::dec_nat(g.occurrences.len()) + "\nrelations: "@
        + text::dec_nat(g.relations.len())
}

/// How many rows the tables have, as text.
pub fn stats(graph: &Graph) -> (r: String)
    ensures
        r@ == counts(graph@),
{
    let mut out = "units: ".to_owned();
    push_nat(&mut out, graph.units.len() as u128);
    out.append("\nrecords: ");
    push_nat(&mut out, graph.records.len() as u128);
    out.append("\nfiles: ");
    push_nat(&mut out, graph.files.len() as u128);
    out.append("\nsymbols: ");
    push_nat(&mut out, graph.symbols.len() as u128);
    out.append("\noccurrences: ");
    push_nat(&mut out, graph.occurrences.len() as u128);
    out.append("\nrelations: ");
    push_nat(&mut out, graph.relations.len() as u128);
    out
}

} // verus!
