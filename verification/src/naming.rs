//! Names of kinds, roles and scopes in plain terms, and that the library's own
//! agree.
use vstd::prelude::*;

use crate::answers;
use crate::ffi::{
    self, ROLE_ADDRESSOF, ROLE_CALL, ROLE_DECLARATION, ROLE_DEFINITION, ROLE_DYNAMIC,
    ROLE_IMPLICIT, ROLE_READ, ROLE_REFERENCE, ROLE_REL_BASEOF, ROLE_REL_CALLEDBY,
    ROLE_REL_CHILDOF, ROLE_REL_CONTAINEDBY, ROLE_REL_OVERRIDEOF, ROLE_REL_SPECIALIZATIONOF,
    ROLE_WRITE,
};
use crate::query;
use crate::text;

verus! {

// ---- starts -------------------------------------------------------------

/// Whether the text starts with the other.
pub open spec fn starts(t: Seq<char>, start: Seq<char>) -> bool {
    start.len() <= t.len() && forall|i: int| 0 <= i < start.len() ==> t[i] == #[trigger] start[i]
}

pub proof fn lemma_starts(t: Seq<char>, start: Seq<char>)
    ensures
        start.is_prefix_of(t) <==> starts(t, start),
{
    if start.is_prefix_of(t) {
        assert(start == t.subrange(0, start.len() as int));
        assert forall|i: int| 0 <= i < start.len() implies t[i] == #[trigger] start[i] by {}
    }
    if starts(t, start) {
        assert(start =~= t.subrange(0, start.len() as int));
    }
}

// ---- kinds --------------------------------------------------------------

/// The names of the kinds, from the first on.
pub open spec fn kind_names() -> Seq<Seq<char>> {
    seq![
        "module"@,
        "namespace"@,
        "namespace-alias"@,
        "macro"@,
        "enum"@,
        "struct"@,
        "class"@,
        "protocol"@,
        "extension"@,
        "union"@,
        "typealias"@,
        "function"@,
        "variable"@,
        "field"@,
        "enum-constant"@,
        "instance-method"@,
        "class-method"@,
        "static-method"@,
        "instance-property"@,
        "class-property"@,
        "static-property"@,
        "constructor"@,
        "destructor"@,
        "conversion-function"@,
        "parameter"@,
        "using"@,
        "concept"@,
    ]
}

/// The name of a kind.
pub open spec fn kind(k: int) -> Seq<char> {
    if 1 <= k <= 27 {
        kind_names()[k - 1]
    } else {
        "unknown"@
    }
}

/// Each kind has its name, and any other number none.
pub proof fn law_kinds_have_their_names(k: i64)
    ensures
        query::kind_text(k) == kind(k as int),
{
}

// ---- roles --------------------------------------------------------------

/// The bits of roles that are told, and their names, in the order in which they
/// are told.
pub open spec fn role_names() -> Seq<(u64, Seq<char>)> {
    seq![
        (0x2u64, "def"@),
        (0x1u64, "decl"@),
        (0x20u64, "call"@),
        (0x4u64, "ref"@),
        (0x8u64, "read"@),
        (0x10u64, "write"@),
        (0x80u64, "addrof"@),
        (0x40u64, "dyn"@),
        (0x100u64, "implicit"@),
    ]
}

/// Whether the roles have one of the bits.
pub open spec fn has_bit(roles: i64, bits: u64) -> bool {
    (roles as u64) & bits != 0
}

/// The names of those of the bits that the roles have, with a comma between any
/// two.
pub open spec fn names_told(names: Seq<(u64, Seq<char>)>, roles: i64) -> Seq<char>
    decreases names.len(),
{
    if names.len() == 0 {
        Seq::empty()
    } else {
        let before = names_told(names.drop_last(), roles);
        let last = names[names.len() - 1];
        if !has_bit(roles, last.0) {
            before
        } else if before.len() == 0 {
            last.1
        } else {
            before + ","@ + last.1
        }
    }
}

/// The roles, as text.
pub open spec fn roles(r: i64) -> Seq<char> {
    names_told(role_names(), r)
}

/// The bits of roles are these.
pub proof fn law_roles_have_their_bits()
    ensures
        ROLE_DECLARATION == 0x1,
        ROLE_DEFINITION == 0x2,
        ROLE_REFERENCE == 0x4,
        ROLE_READ == 0x8,
        ROLE_WRITE == 0x10,
        ROLE_CALL == 0x20,
        ROLE_DYNAMIC == 0x40,
        ROLE_ADDRESSOF == 0x80,
        ROLE_IMPLICIT == 0x100,
        ROLE_REL_CHILDOF == 0x200,
        ROLE_REL_BASEOF == 0x400,
        ROLE_REL_OVERRIDEOF == 0x800,
        ROLE_REL_CALLEDBY == 0x2000,
        ROLE_REL_CONTAINEDBY == 0x10000,
        ROLE_REL_SPECIALIZATIONOF == 0x40000,
        query::ROLES_INSIDE == 0x12000,
        ROLE_DEFINITION | ROLE_DECLARATION == 0x3,
{
    assert(1u64 << 0 == 0x1 && 1u64 << 1 == 0x2 && 1u64 << 2 == 0x4 && 1u64 << 3 == 0x8 && 1u64 << 4
        == 0x10 && 1u64 << 5 == 0x20 && 1u64 << 6 == 0x40 && 1u64 << 7 == 0x80 && 1u64 << 8
        == 0x100) by (bit_vector);
    assert(1u64 << 9 == 0x200 && 1u64 << 10 == 0x400 && 1u64 << 11 == 0x800 && 1u64 << 13 == 0x2000
        && 1u64 << 16 == 0x10000 && 1u64 << 18 == 0x40000) by (bit_vector);
    assert(0x2000u64 | 0x10000u64 == 0x12000u64 && 0x2u64 | 0x1u64 == 0x3u64) by (bit_vector);
}

/// Whether no part is empty.
spec fn none_empty(parts: Seq<Seq<char>>) -> bool {
    forall|i: int| 0 <= i < parts.len() ==> (#[trigger] parts[i]).len() > 0
}

/// What one more bit adds to the tags that are joined.
proof fn lemma_tag_told(
    tags: Seq<Seq<char>>,
    names: Seq<(u64, Seq<char>)>,
    r: i64,
    bit: u64,
    name: Seq<char>,
)
    requires
        none_empty(tags),
        text::joined(tags, ","@) == names_told(names, r),
        name.len() > 0,
    ensures
        none_empty(tags + query::tag(r, bit, name)),
        text::joined(tags + query::tag(r, bit, name), ","@) == names_told(
            names.push((bit, name)),
            r,
        ),
{
    let more = names.push((bit, name));
    assert(more.drop_last() =~= names);
    if ffi::has_role(r, bit) {
        let t = tags + query::tag(r, bit, name);
        assert(t =~= tags.push(name));
        assert(t.drop_last() =~= tags);
        if tags.len() == 0 {
            assert(text::joined(tags, ","@).len() == 0);
            assert(t[0] == name);
        } else {
            lemma_joined_some(tags);
        }
    } else {
        assert(tags + query::tag(r, bit, name) =~= tags);
    }
}

proof fn lemma_joined_some(parts: Seq<Seq<char>>)
    requires
        none_empty(parts),
        parts.len() > 0,
    ensures
        text::joined(parts, ","@).len() > 0,
{
    assert(parts[0].len() > 0);
    assert(parts[parts.len() - 1].len() > 0);
}

/// The roles of an occurrence are told by the names of their bits, in one order.
pub proof fn law_roles_are_told(r: i64)
    ensures
        query::role_list(r) == roles(r),
        forall|bits: u64| #[trigger] ffi::has_role(r, bits) == has_bit(r, bits),
{
    law_roles_have_their_bits();
    reveal_strlit("def");
    reveal_strlit("decl");
    reveal_strlit("call");
    reveal_strlit("ref");
    reveal_strlit("read");
    reveal_strlit("write");
    reveal_strlit("addrof");
    reveal_strlit("dyn");
    reveal_strlit("implicit");
    let t1 = Seq::<Seq<char>>::empty() + query::tag(r, 0x2, "def"@);
    let t2 = t1 + query::tag(r, 0x1, "decl"@);
    let t3 = t2 + query::tag(r, 0x20, "call"@);
    let t4 = t3 + query::tag(r, 0x4, "ref"@);
    let t5 = t4 + query::tag(r, 0x8, "read"@);
    let t6 = t5 + query::tag(r, 0x10, "write"@);
    let t7 = t6 + query::tag(r, 0x80, "addrof"@);
    let t8 = t7 + query::tag(r, 0x40, "dyn"@);
    let t9 = t8 + query::tag(r, 0x100, "implicit"@);
    let n0 = Seq::<(u64, Seq<char>)>::empty();
    let n1 = n0.push((0x2, "def"@));
    let n2 = n1.push((0x1, "decl"@));
    let n3 = n2.push((0x20, "call"@));
    let n4 = n3.push((0x4, "ref"@));
    let n5 = n4.push((0x8, "read"@));
    let n6 = n5.push((0x10, "write"@));
    let n7 = n6.push((0x80, "addrof"@));
    let n8 = n7.push((0x40, "dyn"@));
    let n9 = n8.push((0x100, "implicit"@));
    lemma_tag_told(Seq::empty(), n0, r, 0x2, "def"@);
    lemma_tag_told(t1, n1, r, 0x1, "decl"@);
    lemma_tag_told(t2, n2, r, 0x20, "call"@);
    lemma_tag_told(t3, n3, r, 0x4, "ref"@);
    lemma_tag_told(t4, n4, r, 0x8, "read"@);
    lemma_tag_told(t5, n5, r, 0x10, "write"@);
    lemma_tag_told(t6, n6, r, 0x80, "addrof"@);
    lemma_tag_told(t7, n7, r, 0x40, "dyn"@);
    lemma_tag_told(t8, n8, r, 0x100, "implicit"@);
    assert(t1 =~= query::tag(r, 0x2, "def"@));
    assert(query::role_tags(r) =~= t9);
    assert(role_names() =~= n9);
}

// ---- what the reflection macros add -------------------------------------

/// Whether the name is one that members and outlines leave out.
pub open spec fn left_out(name: Seq<char>) -> bool {
    ||| name == "StaticClass"@
    ||| name == "StaticPackage"@
    ||| name == "StaticClassFlags"@
    ||| name == "StaticClassCastFlags"@
    ||| name == "StaticAllClassCastFlags"@
    ||| name == "GetPrivateStaticClass"@
    ||| name == "Super"@
    ||| name == "ThisClass"@
    ||| name == "operator new"@
    ||| name == "operator delete"@
    ||| name == "WithinClass"@
    ||| starts(name, "exec"@)
    ||| starts(name, "StaticRegisterNatives"@)
    ||| starts(name, "Z_Construct"@)
    ||| starts(name, "__"@)
}

/// No other name is left out.
pub proof fn law_only_these_names_are_left_out(name: Seq<char>)
    ensures
        query::is_noise(name) <==> left_out(name),
{
    lemma_starts(name, "exec"@);
    lemma_starts(name, "StaticRegisterNatives"@);
    lemma_starts(name, "Z_Construct"@);
    lemma_starts(name, "__"@);
    let names = query::macro_names();
    if names.contains(name) {
        let i = choose|i: int| 0 <= i < names.len() && names[i] == name;
        assert(names.len() == 11);
    }
    assert(names[0] == "StaticClass"@);
    assert(names[1] == "StaticPackage"@);
    assert(names[2] == "StaticClassFlags"@);
    assert(names[3] == "StaticClassCastFlags"@);
    assert(names[4] == "StaticAllClassCastFlags"@);
    assert(names[5] == "GetPrivateStaticClass"@);
    assert(names[6] == "Super"@);
    assert(names[7] == "ThisClass"@);
    assert(names[8] == "operator new"@);
    assert(names[9] == "operator delete"@);
    assert(names[10] == "WithinClass"@);
}

// ---- paths --------------------------------------------------------------

/// Whether the prefix is the first that the path starts with.
pub open spec fn is_first_prefix(
    pairs: Seq<(Seq<char>, Seq<char>)>,
    path: Seq<char>,
    k: int,
) -> bool {
    &&& 0 <= k < pairs.len()
    &&& starts(path, pairs[k].0)
    &&& forall|i: int| 0 <= i < k ==> !starts(path, (#[trigger] pairs[i]).0)
}

/// The path, with the first prefix that it starts with replaced.
pub open spec fn short(pairs: Seq<(Seq<char>, Seq<char>)>, path: Seq<char>) -> Seq<char> {
    if exists|k: int| is_first_prefix(pairs, path, k) {
        let k = choose|k: int| is_first_prefix(pairs, path, k);
        pairs[k].1 + path.skip(pairs[k].0.len() as int)
    } else {
        path
    }
}

/// Whether a prefix before the place is one that the path starts with.
proof fn lemma_least_prefix(pairs: Seq<(Seq<char>, Seq<char>)>, path: Seq<char>, k: int) -> (m:
    int)
    requires
        0 <= k < pairs.len(),
        starts(path, pairs[k].0),
    ensures
        is_first_prefix(pairs, path, m),
    decreases k,
{
    if exists|i: int| 0 <= i < k && starts(path, (#[trigger] pairs[i]).0) {
        let i = choose|i: int| 0 <= i < k && starts(path, (#[trigger] pairs[i]).0);
        lemma_least_prefix(pairs, path, i)
    } else {
        k
    }
}

/// Paths are shortened by the first prefix that they start with.
pub proof fn law_paths_are_shortened(pairs: Seq<(Seq<char>, Seq<char>)>, path: Seq<char>)
    ensures
        query::shortened(pairs, path) == short(pairs, path),
{
    assert forall|i: int| 0 <= i < pairs.len() implies ((#[trigger] pairs[i]).0.is_prefix_of(path)
        <==> starts(path, pairs[i].0)) by {
        lemma_starts(path, pairs[i].0);
    }
    if exists|k: int| is_first_prefix(pairs, path, k) {
        let k = choose|k: int| is_first_prefix(pairs, path, k);
        answers::law_first_prefix_counts(pairs, path, k);
    } else {
        assert forall|i: int| 0 <= i < pairs.len() implies !(#[trigger] pairs[i]).0.is_prefix_of(
            path,
        ) by {
            if starts(path, pairs[i].0) {
                let m = lemma_least_prefix(pairs, path, i);
            }
        }
        answers::law_first_prefix_counts(pairs, path, 0);
    }
}

// ---- scoped names -------------------------------------------------------

/// Whether two colons stand at the place.
pub open spec fn colons_at(q: Seq<char>, k: int) -> bool {
    0 <= k && k + 1 < q.len() && q[k] == ':' && q[k + 1] == ':'
}

/// Whether two colons stand first at the place.
pub open spec fn first_colons_at(q: Seq<char>, k: int) -> bool {
    colons_at(q, k) && forall|i: int| 0 <= i < k ==> !#[trigger] colons_at(q, i)
}

/// One part, where it is not empty.
pub open spec fn part(p: Seq<char>) -> Seq<Seq<char>> {
    if p.len() > 0 {
        seq![p]
    } else {
        Seq::empty()
    }
}

proof fn lemma_parts_plain(cur: Seq<char>, s: Seq<char>)
    requires
        forall|i: int| !#[trigger] colons_at(s, i),
    ensures
        text::parts_from(cur, s) == part(cur + s),
    decreases s.len(),
{
    if s.len() == 0 {
        assert(cur + s =~= cur);
    } else {
        assert(!colons_at(s, 0));
        let t = s.drop_first();
        assert forall|i: int| !#[trigger] colons_at(t, i) by {
            assert(!colons_at(s, i + 1));
        }
        lemma_parts_plain(cur.push(s[0]), t);
        assert(cur.push(s[0]) + t =~= cur + s);
    }
}

proof fn lemma_parts_first(cur: Seq<char>, s: Seq<char>, k: int)
    requires
        first_colons_at(s, k),
    ensures
        text::parts_from(cur, s) == part(cur + s.take(k)) + text::scope_parts(s.skip(k + 2)),
    decreases s.len(),
{
    if k == 0 {
        assert(cur + s.take(0) =~= cur);
    } else {
        assert(!colons_at(s, 0));
        let t = s.drop_first();
        assert forall|i: int| 0 <= i < k - 1 implies !#[trigger] colons_at(t, i) by {
            assert(!colons_at(s, i + 1));
        }
        assert(colons_at(t, k - 1));
        lemma_parts_first(cur.push(s[0]), t, k - 1);
        assert(cur.push(s[0]) + t.take(k - 1) =~= cur + s.take(k));
        assert(t.skip(k + 1) =~= s.skip(k + 2));
    }
}

/// A scoped name is split at its colons, from the first on; empty parts do not
/// count.
pub proof fn law_scopes_are_split_at_colons(q: Seq<char>)
    ensures
        (forall|i: int| !#[trigger] colons_at(q, i)) ==> text::scope_parts(q) == part(q),
        forall|k: int| #[trigger]
            first_colons_at(q, k) ==> text::scope_parts(q) == part(q.take(k)) + text::scope_parts(
                q.skip(k + 2),
            ),
        text::has_separator(q) <==> exists|k: int| colons_at(q, k),
{
    if forall|i: int| !#[trigger] colons_at(q, i) {
        lemma_parts_plain(Seq::empty(), q);
        assert(Seq::<char>::empty() + q =~= q);
    }
    assert forall|k: int| #[trigger] first_colons_at(q, k) implies text::scope_parts(q) == part(
        q.take(k),
    ) + text::scope_parts(q.skip(k + 2)) by {
        lemma_parts_first(Seq::empty(), q, k);
        assert(Seq::<char>::empty() + q.take(k) =~= q.take(k));
    }
    if text::has_separator(q) {
        let k = choose|k: int| text::separator_at(q, k);
        assert(colons_at(q, k));
    }
    if exists|k: int| colons_at(q, k) {
        let k = choose|k: int| colons_at(q, k);
        assert(text::separator_at(q, k));
    }
}

} // verus!
