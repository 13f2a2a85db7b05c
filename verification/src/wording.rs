//! What the texts of answers tell.
use vstd::prelude::*;

use crate::db::GraphV;
use crate::ffi::{
    self, ROLE_ADDRESSOF, ROLE_CALL, ROLE_DECLARATION, ROLE_DEFINITION, ROLE_DYNAMIC,
    ROLE_IMPLICIT, ROLE_READ, ROLE_REFERENCE, ROLE_WRITE,
};
use crate::query::{self, SymV};
use crate::rows;
use crate::text;

verus! {

// ---- joined texts -------------------------------------------------------

/// Whether no part is empty or holds the character.
spec fn are_parts(parts: Seq<Seq<char>>, c: char) -> bool {
    forall|i: int| 0 <= i < parts.len() ==> (#[trigger] parts[i]).len() > 0 && !parts[i].contains(c)
}

proof fn lemma_joined_empty(parts: Seq<Seq<char>>, c: char)
    requires
        are_parts(parts, c),
    ensures
        text::joined(parts, seq![c]).len() == 0 <==> parts.len() == 0,
{
    if parts.len() > 0 {
        assert(parts[0].len() > 0);
        assert(parts[parts.len() - 1].len() > 0);
    }
}

/// Where one text ends in the character and a part, and another in the character
/// and another part, equal texts have equal parts.
proof fn lemma_last_part(a: Seq<char>, x: Seq<char>, b: Seq<char>, y: Seq<char>, c: char)
    requires
        a + seq![c] + x == b + seq![c] + y,
        !x.contains(c),
        !y.contains(c),
    ensures
        a == b,
        x == y,
{
    let t = a + seq![c] + x;
    let u = b + seq![c] + y;
    assert(t[a.len() as int] == c);
    assert(u[b.len() as int] == c);
    assert(t.len() == a.len() + 1 + x.len());
    assert(u.len() == b.len() + 1 + y.len());
    if a.len() < b.len() {
        let k = b.len() - a.len() - 1;
        assert(0 <= k < x.len());
        assert(t[b.len() as int] == x[k]);
    } else if b.len() < a.len() {
        let k = a.len() - b.len() - 1;
        assert(0 <= k < y.len());
        assert(u[a.len() as int] == y[k]);
    }
    assert(a =~= t.take(a.len() as int));
    assert(b =~= u.take(b.len() as int));
    assert(x =~= t.skip(a.len() as int + 1));
    assert(y =~= u.skip(b.len() as int + 1));
}

/// Parts that hold no separator can be told from the text that joins them.
proof fn lemma_joined_tells(p: Seq<Seq<char>>, q: Seq<Seq<char>>, c: char)
    requires
        are_parts(p, c),
        are_parts(q, c),
        text::joined(p, seq![c]) == text::joined(q, seq![c]),
    ensures
        p == q,
    decreases p.len() + q.len(),
{
    let sep = seq![c];
    lemma_joined_empty(p, c);
    lemma_joined_empty(q, c);
    if p.len() == 0 {
        assert(p =~= q);
    } else if p.len() == 1 && q.len() == 1 {
        assert(p =~= q);
    } else if p.len() == 1 {
        let a = text::joined(q.drop_last(), sep);
        assert(text::joined(q, sep)[a.len() as int] == c);
        assert(p[0].contains(c));
    } else if q.len() == 1 {
        let a = text::joined(p.drop_last(), sep);
        assert(text::joined(p, sep)[a.len() as int] == c);
        assert(q[0].contains(c));
    } else {
        let a = text::joined(p.drop_last(), sep);
        let b = text::joined(q.drop_last(), sep);
        assert(!p[p.len() - 1].contains(c));
        assert(!q[q.len() - 1].contains(c));
        lemma_last_part(a, p.last(), b, q.last(), c);
        assert forall|i: int| 0 <= i < p.drop_last().len() implies (
        #[trigger] p.drop_last()[i]).len() > 0 && !p.drop_last()[i].contains(c) by {
            assert(p[i].len() > 0);
        }
        assert forall|i: int| 0 <= i < q.drop_last().len() implies (
        #[trigger] q.drop_last()[i]).len() > 0 && !q.drop_last()[i].contains(c) by {
            assert(q[i].len() > 0);
        }
        lemma_joined_tells(p.drop_last(), q.drop_last(), c);
        assert(p =~= p.drop_last().push(p.last()));
        assert(q =~= q.drop_last().push(q.last()));
    }
}

// ---- roles --------------------------------------------------------------

/// The bits of roles that have a tag.
pub const ROLES_TOLD: u64 = 0x1ff;

proof fn lemma_role_bits(x: u64, y: u64)
    ensures
        x & ROLES_TOLD == y & ROLES_TOLD <==> {
            &&& (x & ROLE_DECLARATION != 0) == (y & ROLE_DECLARATION != 0)
            &&& (x & ROLE_DEFINITION != 0) == (y & ROLE_DEFINITION != 0)
            &&& (x & ROLE_REFERENCE != 0) == (y & ROLE_REFERENCE != 0)
            &&& (x & ROLE_READ != 0) == (y & ROLE_READ != 0)
            &&& (x & ROLE_WRITE != 0) == (y & ROLE_WRITE != 0)
            &&& (x & ROLE_CALL != 0) == (y & ROLE_CALL != 0)
            &&& (x & ROLE_DYNAMIC != 0) == (y & ROLE_DYNAMIC != 0)
            &&& (x & ROLE_ADDRESSOF != 0) == (y & ROLE_ADDRESSOF != 0)
            &&& (x & ROLE_IMPLICIT != 0) == (y & ROLE_IMPLICIT != 0)
        },
{
    assert(x & 0x1ff == y & 0x1ff <==> {
        &&& (x & (1u64 << 0) != 0) == (y & (1u64 << 0) != 0)
        &&& (x & (1u64 << 1) != 0) == (y & (1u64 << 1) != 0)
        &&& (x & (1u64 << 2) != 0) == (y & (1u64 << 2) != 0)
        &&& (x & (1u64 << 3) != 0) == (y & (1u64 << 3) != 0)
        &&& (x & (1u64 << 4) != 0) == (y & (1u64 << 4) != 0)
        &&& (x & (1u64 << 5) != 0) == (y & (1u64 << 5) != 0)
        &&& (x & (1u64 << 6) != 0) == (y & (1u64 << 6) != 0)
        &&& (x & (1u64 << 7) != 0) == (y & (1u64 << 7) != 0)
        &&& (x & (1u64 << 8) != 0) == (y & (1u64 << 8) != 0)
    }) by (bit_vector);
}

/// Whether the tag is one that the roles have.
spec fn is_tag(roles: i64, x: Seq<char>) -> bool {
    ||| ffi::has_role(roles, ROLE_DEFINITION) && x == "def"@
    ||| ffi::has_role(roles, ROLE_DECLARATION) && x == "decl"@
    ||| ffi::has_role(roles, ROLE_CALL) && x == "call"@
    ||| ffi::has_role(roles, ROLE_REFERENCE) && x == "ref"@
    ||| ffi::has_role(roles, ROLE_READ) && x == "read"@
    ||| ffi::has_role(roles, ROLE_WRITE) && x == "write"@
    ||| ffi::has_role(roles, ROLE_ADDRESSOF) && x == "addrof"@
    ||| ffi::has_role(roles, ROLE_DYNAMIC) && x == "dyn"@
    ||| ffi::has_role(roles, ROLE_IMPLICIT) && x == "implicit"@
}

proof fn lemma_tag(roles: i64, bit: u64, name: Seq<char>, x: Seq<char>)
    ensures
        query::tag(roles, bit, name).contains(x) <==> ffi::has_role(roles, bit) && x == name,
{
    if ffi::has_role(roles, bit) {
        assert(query::tag(roles, bit, name)[0] == name);
    }
}

proof fn lemma_contains_either<A>(a: Seq<A>, b: Seq<A>, x: A)
    ensures
        (a + b).contains(x) <==> a.contains(x) || b.contains(x),
{
    if a.contains(x) {
        let i = choose|i: int| 0 <= i < a.len() && a[i] == x;
        assert((a + b)[i] == x);
    }
    if b.contains(x) {
        let i = choose|i: int| 0 <= i < b.len() && b[i] == x;
        assert((a + b)[a.len() + i] == x);
    }
    if (a + b).contains(x) {
        let i = choose|i: int| 0 <= i < (a + b).len() && (a + b)[i] == x;
        if i < a.len() {
            assert(a[i] == x);
        } else {
            assert(b[i - a.len()] == x);
        }
    }
}

proof fn lemma_role_tags(roles: i64, x: Seq<char>)
    ensures
        query::role_tags(roles).contains(x) <==> is_tag(roles, x),
{
    let t1 = query::tag(roles, ROLE_DEFINITION, "def"@);
    let t2 = query::tag(roles, ROLE_DECLARATION, "decl"@);
    let t3 = query::tag(roles, ROLE_CALL, "call"@);
    let t4 = query::tag(roles, ROLE_REFERENCE, "ref"@);
    let t5 = query::tag(roles, ROLE_READ, "read"@);
    let t6 = query::tag(roles, ROLE_WRITE, "write"@);
    let t7 = query::tag(roles, ROLE_ADDRESSOF, "addrof"@);
    let t8 = query::tag(roles, ROLE_DYNAMIC, "dyn"@);
    let t9 = query::tag(roles, ROLE_IMPLICIT, "implicit"@);
    lemma_tag(roles, ROLE_DEFINITION, "def"@, x);
    lemma_tag(roles, ROLE_DECLARATION, "decl"@, x);
    lemma_tag(roles, ROLE_CALL, "call"@, x);
    lemma_tag(roles, ROLE_REFERENCE, "ref"@, x);
    lemma_tag(roles, ROLE_READ, "read"@, x);
    lemma_tag(roles, ROLE_WRITE, "write"@, x);
    lemma_tag(roles, ROLE_ADDRESSOF, "addrof"@, x);
    lemma_tag(roles, ROLE_DYNAMIC, "dyn"@, x);
    lemma_tag(roles, ROLE_IMPLICIT, "implicit"@, x);
    lemma_contains_either(t1, t2, x);
    lemma_contains_either(t1 + t2, t3, x);
    lemma_contains_either(t1 + t2 + t3, t4, x);
    lemma_contains_either(t1 + t2 + t3 + t4, t5, x);
    lemma_contains_either(t1 + t2 + t3 + t4 + t5, t6, x);
    lemma_contains_either(t1 + t2 + t3 + t4 + t5 + t6, t7, x);
    lemma_contains_either(t1 + t2 + t3 + t4 + t5 + t6 + t7, t8, x);
    lemma_contains_either(t1 + t2 + t3 + t4 + t5 + t6 + t7 + t8, t9, x);
}

/// No tag is empty, and none holds a comma.
proof fn lemma_tags_are_parts(roles: i64)
    ensures
        are_parts(query::role_tags(roles), ','),
{
    reveal_strlit("def");
    reveal_strlit("decl");
    reveal_strlit("call");
    reveal_strlit("ref");
    reveal_strlit("read");
    reveal_strlit("write");
    reveal_strlit("addrof");
    reveal_strlit("dyn");
    reveal_strlit("implicit");
    let tags = query::role_tags(roles);
    assert forall|i: int| 0 <= i < tags.len() implies (#[trigger] tags[i]).len() > 0
        && !tags[i].contains(',') by {
        let x = tags[i];
        assert(tags.contains(x));
        lemma_role_tags(roles, x);
        if x.contains(',') {
            let k = choose|k: int| 0 <= k < x.len() && x[k] == ',';
            assert(k == 0 || k == 1 || k == 2 || k == 3 || k == 4 || k == 5 || k == 6 || k == 7);
        }
    }
}

/// Each tag stands for one role.
proof fn lemma_tags_differ(roles: i64)
    ensures
        is_tag(roles, "def"@) == ffi::has_role(roles, ROLE_DEFINITION),
        is_tag(roles, "decl"@) == ffi::has_role(roles, ROLE_DECLARATION),
        is_tag(roles, "call"@) == ffi::has_role(roles, ROLE_CALL),
        is_tag(roles, "ref"@) == ffi::has_role(roles, ROLE_REFERENCE),
        is_tag(roles, "read"@) == ffi::has_role(roles, ROLE_READ),
        is_tag(roles, "write"@) == ffi::has_role(roles, ROLE_WRITE),
        is_tag(roles, "addrof"@) == ffi::has_role(roles, ROLE_ADDRESSOF),
        is_tag(roles, "dyn"@) == ffi::has_role(roles, ROLE_DYNAMIC),
        is_tag(roles, "implicit"@) == ffi::has_role(roles, ROLE_IMPLICIT),
{
    reveal_strlit("def");
    reveal_strlit("decl");
    reveal_strlit("call");
    reveal_strlit("ref");
    reveal_strlit("read");
    reveal_strlit("write");
    reveal_strlit("addrof");
    reveal_strlit("dyn");
    reveal_strlit("implicit");
    assert("def"@.len() == 3 && "ref"@.len() == 3 && "dyn"@.len() == 3);
    assert("decl"@.len() == 4 && "call"@.len() == 4 && "read"@.len() == 4);
    assert("write"@.len() == 5 && "addrof"@.len() == 6 && "implicit"@.len() == 8);
    assert("def"@[1] == 'e' && "dyn"@[1] == 'y');
    assert("def"@[0] == 'd' && "dyn"@[0] == 'd' && "ref"@[0] == 'r');
    assert("decl"@[0] == 'd' && "call"@[0] == 'c' && "read"@[0] == 'r');
}

/// The text of the roles of an occurrence tells them apart: two texts are equal
/// exactly where the roles agree on the bits that have a tag.
pub proof fn law_role_texts_tell_roles(a: i64, b: i64)
    ensures
        query::role_list(a) == query::role_list(b) <==> (a as u64) & ROLES_TOLD == (b as u64)
            & ROLES_TOLD,
{
    reveal_strlit(",");
    assert(","@ =~= seq![',']);
    lemma_role_bits(a as u64, b as u64);
    if query::role_list(a) == query::role_list(b) {
        lemma_tags_are_parts(a);
        lemma_tags_are_parts(b);
        lemma_joined_tells(query::role_tags(a), query::role_tags(b), ',');
        assert forall|x: Seq<char>| #[trigger] is_tag(a, x) == is_tag(b, x) by {
            lemma_role_tags(a, x);
            lemma_role_tags(b, x);
        }
        lemma_tags_differ(a);
        lemma_tags_differ(b);
        assert(is_tag(a, "def"@) == is_tag(b, "def"@));
        assert(is_tag(a, "decl"@) == is_tag(b, "decl"@));
        assert(is_tag(a, "call"@) == is_tag(b, "call"@));
        assert(is_tag(a, "ref"@) == is_tag(b, "ref"@));
        assert(is_tag(a, "read"@) == is_tag(b, "read"@));
        assert(is_tag(a, "write"@) == is_tag(b, "write"@));
        assert(is_tag(a, "addrof"@) == is_tag(b, "addrof"@));
        assert(is_tag(a, "dyn"@) == is_tag(b, "dyn"@));
        assert(is_tag(a, "implicit"@) == is_tag(b, "implicit"@));
    }
}

// ---- lists of candidates ------------------------------------------------

/// A text that does not hold the first character of `pat` stays as it is.
pub proof fn lemma_replaced_none(t: Seq<char>, pat: Seq<char>, rep: Seq<char>)
    requires
        pat.len() > 0,
        !t.contains(pat[0]),
    ensures
        text::replaced(t, pat, rep) == t,
    decreases t.len(),
{
    if t.len() > 0 {
        let rest = t.drop_first();
        assert(t.contains(t[0]));
        assert(t[0] != pat[0]);
        if pat.is_prefix_of(t) {
            assert(pat == t.subrange(0, pat.len() as int));
            assert(pat[0] == t[0]);
        }
        if rest.contains(pat[0]) {
            let i = choose|i: int| 0 <= i < rest.len() && rest[i] == pat[0];
            assert(t[i + 1] == pat[0]);
        }
        lemma_replaced_none(rest, pat, rep);
        assert(t =~= seq![t[0]] + rest);
    }
}

/// What follows the last place where `pat` stands stays at the end, where the
/// first character of `pat` occurs in it only there.
proof fn lemma_replaced_end(
    head: Seq<char>,
    pat: Seq<char>,
    rep: Seq<char>,
    tail: Seq<char>,
) -> (x: Seq<char>)
    requires
        pat.len() > 0,
        forall|i: int| 0 < i < pat.len() ==> (#[trigger] pat[i]) != pat[0],
        !tail.contains(pat[0]),
    ensures
        text::replaced(head + pat + tail, pat, rep) == x + rep + tail,
    decreases head.len(),
{
    let t = head + pat + tail;
    let n = pat.len() as int;
    if head.len() == 0 {
        assert(t.subrange(0, n) =~= pat);
        assert(pat.is_prefix_of(t));
        assert(t.skip(n) =~= tail);
        lemma_replaced_none(tail, pat, rep);
        assert(Seq::<char>::empty() + rep + tail =~= rep + tail);
        Seq::empty()
    } else if pat.is_prefix_of(t) {
        assert(pat == t.subrange(0, n));
        if head.len() < n {
            let k = head.len() as int;
            assert(t[k] == pat[0]);
            assert(t.subrange(0, n)[k] == t[k]);
            assert(pat[k] != pat[0]);
        }
        let rest = head.skip(n);
        assert(t.skip(n) =~= rest + pat + tail);
        let x = lemma_replaced_end(rest, pat, rep, tail);
        assert(rep + (x + rep + tail) =~= (rep + x) + rep + tail);
        rep + x
    } else {
        let rest = head.drop_first();
        assert(t.drop_first() =~= rest + pat + tail);
        let x = lemma_replaced_end(rest, pat, rep, tail);
        assert(seq![t[0]] + (x + rep + tail) =~= (seq![t[0]] + x) + rep + tail);
        seq![t[0]] + x
    }
}

/// Where a question stands for too many symbols, the answer has for each of them
/// a text that ends in its USR and a line break, for a USR that holds none.
pub proof fn law_candidates_end_in_their_usrs(
    g: GraphV,
    sh: Seq<(Seq<char>, Seq<char>)>,
    syms: Seq<SymV>,
)
    ensures
        query::too_many(g, sh, syms) == "ambiguous ("@ + text::dec_nat(syms.len())
            + " matches, showing 30 max) — narrow with Class::Member or a USR:\n"@ + rows::gather(
            syms,
            query::candidate_line(g, sh),
        ),
        forall|i: int|
            0 <= i < syms.len() && !(#[trigger] syms[i]).usr.contains('\n') ==> exists|
                x: Seq<char>,
            |
                query::candidate_line(g, sh)(syms[i]) == #[trigger] (x + "  usr: "@ + syms[i].usr
                    + "\n"@),
{
    reveal_strlit("\n  usr:");
    reveal_strlit("  usr:");
    reveal_strlit("\n  usr: ");
    reveal_strlit("  usr: ");
    let pat = "\n  usr:"@;
    let rep = "  usr:"@;
    assert forall|i: int| 0 <= i < syms.len() && !(#[trigger] syms[i]).usr.contains(
        '\n',
    ) implies exists|x: Seq<char>|
        query::candidate_line(g, sh)(syms[i]) == #[trigger] (x + "  usr: "@ + syms[i].usr
            + "\n"@) by {
        let s = syms[i];
        let line = query::headline(g, sh, s);
        let n = line.len() - s.usr.len() - 8;
        let head = line.take(n);
        let tail = seq![' '] + s.usr;
        assert("\n  usr: "@ =~= pat + seq![' ']);
        assert("  usr: "@ =~= rep + seq![' ']);
        assert(line =~= head + pat + tail);
        if tail.contains('\n') {
            let k = choose|k: int| 0 <= k < tail.len() && tail[k] == '\n';
            assert(s.usr[k - 1] == '\n');
        }
        let y = lemma_replaced_end(head, pat, rep, tail);
        let x = "  "@ + y;
        assert(query::candidate_line(g, sh)(s) =~= x + "  usr: "@ + s.usr + "\n"@);
    }
}

} // verus!
