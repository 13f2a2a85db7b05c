//! Text: decimal numbers, comparison, texts in texts, splitting and joining.
//!
//! A text is a sequence of characters. Nothing here looks at its encoding.
use vstd::prelude::*;

verus! {

/// The characters of `s`, in order.
pub fn chars_of(s: &str) -> (v: Vec<char>)
    ensures
        v@ == s@,
{
    let mut v: Vec<char> = Vec::new();
    for c in it: s.chars()
        invariant
            it.seq() == s@,
            v@ == s@.take(it.index() as int),
    {
        v.push(c);
    }
    assert(v@ =~= s@);
    v
}

/// Whether `a` and `b` are the same text.
pub fn same_text(a: &str, b: &str) -> (r: bool)
    ensures
        r == (a@ == b@),
{
    a.to_owned() == b.to_owned()
}

// ---- decimal numbers ----------------------------------------------------

/// The character of the digit `d`.
pub open spec fn digit(d: int) -> char {
    (48 + d) as char
}

/// `n` in decimal, without leading zeros.
pub open spec fn dec_nat(n: nat) -> Seq<char>
    decreases n,
{
    if n < 10 {
        seq![digit(n as int)]
    } else {
        dec_nat(n / 10).push(digit((n % 10) as int))
    }
}

/// `n` in decimal, with a minus sign where it is negative.
pub open spec fn dec(n: int) -> Seq<char> {
    if n < 0 {
        seq!['-'] + dec_nat((-n) as nat)
    } else {
        dec_nat(n as nat)
    }
}

fn digit_text(d: u8) -> (s: &'static str)
    requires
        d < 10,
    ensures
        s@ == seq![digit(d as int)],
{
    proof {
        reveal_strlit("0");
        reveal_strlit("1");
        reveal_strlit("2");
        reveal_strlit("3");
        reveal_strlit("4");
        reveal_strlit("5");
        reveal_strlit("6");
        reveal_strlit("7");
        reveal_strlit("8");
        reveal_strlit("9");
    }
    if d == 0 {
        assert("0"@ =~= seq!['0']);
        "0"
    } else if d == 1 {
        assert("1"@ =~= seq!['1']);
        "1"
    } else if d == 2 {
        assert("2"@ =~= seq!['2']);
        "2"
    } else if d == 3 {
        assert("3"@ =~= seq!['3']);
        "3"
    } else if d == 4 {
        assert("4"@ =~= seq!['4']);
        "4"
    } else if d == 5 {
        assert("5"@ =~= seq!['5']);
        "5"
    } else if d == 6 {
        assert("6"@ =~= seq!['6']);
        "6"
    } else if d == 7 {
        assert("7"@ =~= seq!['7']);
        "7"
    } else if d == 8 {
        assert("8"@ =~= seq!['8']);
        "8"
    } else {
        assert("9"@ =~= seq!['9']);
        "9"
    }
}

/// Appends `n` in decimal to `out`.
pub fn push_nat(out: &mut String, n: u128)
    ensures
        final(out)@ == old(out)@ + dec_nat(n as nat),
    decreases n,
{
    if n >= 10 {
        push_nat(out, n / 10);
    }
    let d = (n % 10) as u8;
    out.append(digit_text(d));
    proof {
        if n >= 10 {
            assert(out@ =~= old(out)@ + dec_nat((n / 10) as nat).push(digit(d as int)));
        } else {
            assert(out@ =~= old(out)@ + seq![digit(n as int)]);
        }
    }
}

/// Appends `n` in decimal to `out`.
pub fn push_int(out: &mut String, n: i64)
    ensures
        final(out)@ == old(out)@ + dec(n as int),
{
    if n < 0 {
        out.append("-");
        let m: i128 = -(n as i128);
        push_nat(out, m as u128);
        proof {
            reveal_strlit("-");
            assert("-"@ =~= seq!['-']);
            assert(out@ =~= old(out)@ + (seq!['-'] + dec_nat((-n) as nat)));
        }
    } else {
        push_nat(out, n as u128);
    }
}

// ---- order --------------------------------------------------------------

/// Whether `a` is not after `b`, comparing character by character; a proper
/// prefix comes before the longer text.
pub open spec fn text_le(a: Seq<char>, b: Seq<char>) -> bool
    decreases a.len(),
{
    if a.len() == 0 {
        true
    } else if b.len() == 0 {
        false
    } else if a[0] != b[0] {
        (a[0] as u32) < (b[0] as u32)
    } else {
        text_le(a.drop_first(), b.drop_first())
    }
}

/// Whether `a` is not after `b`.
pub fn is_text_le(a: &str, b: &str) -> (r: bool)
    ensures
        r == text_le(a@, b@),
{
    let x = chars_of(a);
    let y = chars_of(b);
    let mut i: usize = 0;
    assert(x@.skip(0) =~= a@);
    assert(y@.skip(0) =~= b@);
    while i < x.len() && i < y.len()
        invariant
            x@ == a@,
            y@ == b@,
            i <= x.len(),
            i <= y.len(),
            text_le(a@, b@) == text_le(x@.skip(i as int), y@.skip(i as int)),
        decreases x.len() - i,
    {
        if x[i] != y[i] {
            return (x[i] as u32) < (y[i] as u32);
        }
        assert(x@.skip(i as int).drop_first() =~= x@.skip(i + 1));
        assert(y@.skip(i as int).drop_first() =~= y@.skip(i + 1));
        i = i + 1;
    }
    i == x.len()
}

proof fn lemma_codes_differ(x: char, y: char)
    ensures
        x as u32 == y as u32 ==> x == y,
{
}

/// Texts are in an order: any two can be compared, without circles, and only
/// equal texts are not after each other.
pub proof fn law_texts_are_ordered(a: Seq<char>, b: Seq<char>, c: Seq<char>)
    ensures
        text_le(a, b) || text_le(b, a),
        text_le(a, b) && text_le(b, a) ==> a == b,
        text_le(a, b) && text_le(b, c) ==> text_le(a, c),
    decreases a.len() + b.len() + c.len(),
{
    if a.len() > 0 && b.len() > 0 {
        lemma_codes_differ(a[0], b[0]);
    }
    if a.len() > 0 && b.len() > 0 && c.len() > 0 {
        law_texts_are_ordered(a.drop_first(), b.drop_first(), c.drop_first());
    } else if a.len() > 0 && b.len() > 0 {
        law_texts_are_ordered(a.drop_first(), b.drop_first(), c);
    }
    if a.len() > 0 && b.len() > 0 && a[0] == b[0] && a.drop_first() == b.drop_first() {
        assert(a =~= seq![a[0]] + a.drop_first());
        assert(b =~= seq![b[0]] + b.drop_first());
    }
    if a.len() == 0 && b.len() == 0 {
        assert(a =~= b);
    }
}

// ---- texts in texts -----------------------------------------------------

/// The part of `s` before its first NUL character.
pub open spec fn before_nul(s: Seq<char>) -> Seq<char>
    decreases s.len(),
{
    if s.len() == 0 || s[0] == '\0' {
        Seq::empty()
    } else {
        seq![s[0]] + before_nul(s.drop_first())
    }
}

/// `c` in lower case where it is an ASCII letter.
pub open spec fn fold(c: char) -> char {
    if 65 <= c as u32 <= 90 {
        ((c as u32) + 32) as char
    } else {
        c
    }
}

/// How many characters `s` has before its first NUL character.
pub open spec fn text_length(s: Seq<char>) -> nat {
    before_nul(s).len()
}

/// The characters of `s` before its first NUL character.
pub fn chars_before_nul(s: &str) -> (v: Vec<char>)
    ensures
        v@ == before_nul(s@),
{
    let all = chars_of(s);
    let mut v: Vec<char> = Vec::new();
    let mut i: usize = 0;
    assert(v@ + before_nul(all@.skip(0)) =~= before_nul(s@)) by {
        assert(all@.skip(0) =~= s@);
    }
    while i < all.len() && all[i] != '\0'
        invariant
            i <= all.len(),
            v@ + before_nul(all@.skip(i as int)) == before_nul(s@),
        decreases all.len() - i,
    {
        let ghost rest = all@.skip(i as int);
        let ghost w = v@;
        v.push(all[i]);
        proof {
            assert(rest.drop_first() =~= all@.skip(i + 1));
            assert(v@ + before_nul(all@.skip(i + 1)) =~= w + (seq![rest[0]] + before_nul(
                rest.drop_first(),
            )));
        }
        i = i + 1;
    }
    assert(v@ + before_nul(all@.skip(i as int)) =~= v@);
    v
}

fn folded(c: char) -> (r: char)
    ensures
        r == fold(c),
{
    let n = c as u32;
    if 65 <= n && n <= 90 {
        ((n + 32) as u8) as char
    } else {
        c
    }
}

/// Whether `s` starts with `p`.
pub fn has_prefix(s: &str, p: &str) -> (r: bool)
    ensures
        r == p@.is_prefix_of(s@),
{
    let x = chars_of(s);
    let y = chars_of(p);
    if x.len() < y.len() {
        return false;
    }
    let mut i: usize = 0;
    while i < y.len()
        invariant
            x@ == s@,
            y@ == p@,
            i <= y.len() <= x.len(),
            x@.take(i as int) == y@.take(i as int),
        decreases y.len() - i,
    {
        if x[i] != y[i] {
            assert(!p@.is_prefix_of(s@)) by {
                if p@.is_prefix_of(s@) {
                    assert(p@ == s@.subrange(0, p@.len() as int));
                    assert(p@[i as int] == s@[i as int]);
                }
            }
            return false;
        }
        assert(x@.take(i + 1) =~= x@.take(i as int).push(x@[i as int]));
        assert(y@.take(i + 1) =~= y@.take(i as int).push(y@[i as int]));
        i = i + 1;
    }
    assert(y@.take(i as int) =~= y@);
    true
}

/// Whether `s` starts with `p`, ASCII letters in either case.
pub open spec fn starts_nocase(s: Seq<char>, p: Seq<char>) -> bool {
    &&& p.len() <= s.len()
    &&& forall|i: int| 0 <= i < p.len() ==> fold(s[i]) == fold(#[trigger] p[i])
}

/// Whether `t` holds `part` somewhere, ASCII letters in either case.
pub open spec fn holds_nocase(t: Seq<char>, part: Seq<char>) -> bool {
    exists|k: int| 0 <= k <= t.len() && #[trigger] starts_nocase(t.skip(k), part)
}

/// Whether `t` holds the parts in their order, none overlapping another, ASCII
/// letters in either case.
pub open spec fn holds_in_order(t: Seq<char>, parts: Seq<Seq<char>>) -> bool
    decreases parts.len(),
{
    parts.len() > 0 ==> exists|k: int|
        0 <= k <= t.len() && #[trigger] starts_nocase(t.skip(k), parts[0]) && holds_in_order(
            t.skip(k).skip(parts[0].len() as int),
            parts.drop_first(),
        )
}

/// What the end of a text holds, the text holds.
proof fn lemma_holds_more(t: Seq<char>, parts: Seq<Seq<char>>, j: int)
    requires
        0 <= j <= t.len(),
        holds_in_order(t.skip(j), parts),
    ensures
        holds_in_order(t, parts),
{
    if parts.len() > 0 {
        let u = t.skip(j);
        let k = choose|k: int|
            0 <= k <= u.len() && #[trigger] starts_nocase(u.skip(k), parts[0])
                && holds_in_order(u.skip(k).skip(parts[0].len() as int), parts.drop_first());
        assert(u.skip(k) =~= t.skip(j + k));
        assert(starts_nocase(t.skip(j + k), parts[0]));
    }
}

fn starts_nocase_at(t: &Vec<char>, i: usize, part: &Vec<char>) -> (r: bool)
    requires
        i <= t@.len(),
    ensures
        r == starts_nocase(t@.skip(i as int), part@),
{
    let n = part.len();
    let end = t.len();
    if end - i < n {
        return false;
    }
    let ghost rest = t@.skip(i as int);
    let mut k: usize = 0;
    while k < n
        invariant
            i + n <= end,
            end == t@.len(),
            n == part@.len(),
            rest == t@.skip(i as int),
            k <= n,
            forall|m: int| 0 <= m < k ==> fold(rest[m]) == fold(#[trigger] part@[m]),
        decreases n - k,
    {
        assert(rest[k as int] == t@[i + k]);
        if folded(t[i + k]) != folded(part[k]) {
            assert(fold(rest[k as int]) != fold(part@[k as int]));
            return false;
        }
        k = k + 1;
    }
    true
}

/// The first place of `t` at or after `from` where `part` stands.
fn find_nocase(t: &Vec<char>, from: usize, part: &Vec<char>) -> (r: Option<usize>)
    requires
        from <= t@.len(),
    ensures
        match r {
            Some(k) => {
                &&& from <= k <= t@.len()
                &&& starts_nocase(t@.skip(k as int), part@)
                &&& forall|j: int|
                    from <= j < k ==> !#[trigger] starts_nocase(t@.skip(j), part@)
            },
            None => forall|j: int|
                from <= j <= t@.len() ==> !#[trigger] starts_nocase(t@.skip(j), part@),
        },
{
    let n = t.len();
    let mut k = from;
    while k < n
        invariant
            n == t@.len(),
            from <= k <= n,
            forall|j: int| from <= j < k ==> !#[trigger] starts_nocase(t@.skip(j), part@),
        decreases n - k,
    {
        if starts_nocase_at(t, k, part) {
            return Some(k);
        }
        k = k + 1;
    }
    if starts_nocase_at(t, n, part) {
        Some(n)
    } else {
        None
    }
}

/// Whether `t` holds `part` somewhere, ASCII letters in either case.
pub fn is_holding(t: &Vec<char>, part: &Vec<char>) -> (r: bool)
    ensures
        r == holds_nocase(t@, part@),
{
    find_nocase(t, 0, part).is_some()
}

/// Texts, as characters.
pub open spec fn spelled(v: Seq<Vec<char>>) -> Seq<Seq<char>> {
    v.map_values(|c: Vec<char>| c@)
}

/// Whether `t` holds the parts in their order, none overlapping another, ASCII
/// letters in either case.
pub fn is_holding_in_order(t: &Vec<char>, parts: &Vec<Vec<char>>) -> (r: bool)
    ensures
        r == holds_in_order(t@, spelled(parts@)),
{
    let ghost all = spelled(parts@);
    let end = t.len();
    let mut at: usize = 0;
    let mut i: usize = 0;
    assert(t@.skip(0) =~= t@);
    assert(all.skip(0) =~= all);
    while i < parts.len()
        invariant
            all == spelled(parts@),
            i <= parts@.len(),
            at <= end,
            end == t@.len(),
            holds_in_order(t@, all) == holds_in_order(t@.skip(at as int), all.skip(i as int)),
        decreases parts.len() - i,
    {
        let ghost rest = t@.skip(at as int);
        let ghost left = all.skip(i as int);
        let ghost part = all[i as int];
        proof {
            assert(left[0] == part);
            assert(left.drop_first() =~= all.skip(i + 1));
            assert(part == parts@[i as int]@);
        }
        match find_nocase(t, at, &parts[i]) {
            Some(k) => {
                assert(k + part.len() <= end);
                let next = k + parts[i].len();
                proof {
                    let after = t@.skip(next as int);
                    assert(rest.skip(k - at) =~= t@.skip(k as int));
                    assert(rest.skip(k - at).skip(part.len() as int) =~= after);
                    assert(starts_nocase(rest.skip(k - at), left[0]));
                    if holds_in_order(rest, left) {
                        let m = choose|m: int|
                            0 <= m <= rest.len() && #[trigger] starts_nocase(
                                rest.skip(m),
                                left[0],
                            ) && holds_in_order(
                                rest.skip(m).skip(left[0].len() as int),
                                left.drop_first(),
                            );
                        assert(rest.skip(m) =~= t@.skip(at + m));
                        assert(starts_nocase(t@.skip(at + m), part));
                        assert(at + m >= k);
                        assert(rest.skip(m).skip(part.len() as int) =~= after.skip(at + m - k));
                        lemma_holds_more(after, left.drop_first(), at + m - k);
                    }
                }
                at = next;
            },
            None => {
                proof {
                    assert forall|m: int| 0 <= m <= rest.len() implies !#[trigger] starts_nocase(
                        rest.skip(m),
                        left[0],
                    ) by {
                        assert(rest.skip(m) =~= t@.skip(at + m));
                    }
                }
                return false;
            },
        }
        i = i + 1;
    }
    true
}

// ---- scoped names -------------------------------------------------------

/// Whether a scope separator starts at position `i` of `s`.
pub open spec fn separator_at(s: Seq<char>, i: int) -> bool {
    0 <= i < s.len() - 1 && s[i] == ':' && s[i + 1] == ':'
}

/// Whether `s` holds a scope separator.
pub open spec fn has_separator(s: Seq<char>) -> bool {
    exists|i: int| separator_at(s, i)
}

/// The parts of `cur + s` between the scope separators of `s`, without the
/// empty ones.
pub open spec fn parts_from(cur: Seq<char>, s: Seq<char>) -> Seq<Seq<char>>
    decreases s.len(),
{
    let done = if cur.len() > 0 {
        seq![cur]
    } else {
        Seq::empty()
    };
    if s.len() == 0 {
        done
    } else if separator_at(s, 0) {
        done + parts_from(Seq::empty(), s.skip(2))
    } else {
        parts_from(cur.push(s[0]), s.drop_first())
    }
}

/// The non-empty parts of `s` between its scope separators, which are taken
/// from the left.
pub open spec fn scope_parts(s: Seq<char>) -> Seq<Seq<char>> {
    parts_from(Seq::empty(), s)
}

/// The texts of `v`.
pub open spec fn texts(v: Seq<String>) -> Seq<Seq<char>> {
    v.map_values(|t: String| t@)
}

/// The non-empty parts of `s` between its scope separators, and whether there
/// is a separator at all.
pub fn split_scope(s: &str) -> (r: (Vec<String>, bool))
    ensures
        texts(r.0@) == scope_parts(s@),
        r.1 == has_separator(s@),
{
    let c = chars_of(s);
    let mut parts: Vec<String> = Vec::new();
    let mut found = false;
    let mut start: usize = 0;
    let mut i: usize = 0;
    proof {
        assert(c@.skip(0) =~= s@);
        assert(c@.subrange(0, 0) =~= Seq::<char>::empty());
        assert(texts(parts@) + scope_parts(s@) =~= scope_parts(s@));
    }
    while i < c.len()
        invariant
            c@ == s@,
            start <= i <= c.len(),
            texts(parts@) + parts_from(
                c@.subrange(start as int, i as int),
                c@.skip(i as int),
            ) == scope_parts(s@),
            found ==> has_separator(s@),
            !found ==> forall|k: int| 0 <= k < i ==> !separator_at(s@, k),
        decreases c.len() - i,
    {
        let ghost cur = c@.subrange(start as int, i as int);
        let ghost rest = c@.skip(i as int);
        let ghost before = texts(parts@);
        let sep = i + 1 < c.len() && c[i] == ':' && c[i + 1] == ':';
        assert(sep == separator_at(rest, 0));
        assert(sep == separator_at(s@, i as int));
        if sep {
            found = true;
            if start < i {
                let part = s.substring_char(start, i).to_owned();
                parts.push(part);
                assert(texts(parts@) =~= before.push(cur));
                assert(texts(parts@) =~= before + seq![cur]);
            } else {
                assert(cur =~= Seq::<char>::empty());
                assert(texts(parts@) =~= before + Seq::<Seq<char>>::empty());
            }
            proof {
                assert(rest.skip(2) =~= c@.skip(i + 2));
                assert(c@.subrange(i + 2, i + 2) =~= Seq::<char>::empty());
                let done = if cur.len() > 0 {
                    seq![cur]
                } else {
                    Seq::empty()
                };
                let tail = parts_from(Seq::empty(), c@.skip(i + 2));
                assert(before + (done + tail) =~= (before + done) + tail);
            }
            i = i + 2;
            start = i;
        } else {
            proof {
                assert(rest.drop_first() =~= c@.skip(i + 1));
                assert(cur.push(rest[0]) =~= c@.subrange(start as int, i + 1));
            }
            i = i + 1;
        }
    }
    let ghost cur = c@.subrange(start as int, i as int);
    let ghost before = texts(parts@);
    if start < i {
        let part = s.substring_char(start, i).to_owned();
        parts.push(part);
        assert(texts(parts@) =~= before + seq![cur]);
    } else {
        assert(cur =~= Seq::<char>::empty());
        assert(texts(parts@) =~= before + Seq::<Seq<char>>::empty());
    }
    (parts, found)
}

// ---- replacing ----------------------------------------------------------

/// `s` with every occurrence of `pat`, taken from the left without overlap,
/// turned into `rep`.
pub open spec fn replaced(s: Seq<char>, pat: Seq<char>, rep: Seq<char>) -> Seq<char>
    decreases s.len(),
{
    if s.len() == 0 || pat.len() == 0 {
        s
    } else if pat.is_prefix_of(s) {
        rep + replaced(s.skip(pat.len() as int), pat, rep)
    } else {
        seq![s[0]] + replaced(s.drop_first(), pat, rep)
    }
}

fn occurs_at(c: &Vec<char>, i: usize, pat: &Vec<char>) -> (r: bool)
    requires
        i <= c.len(),
    ensures
        r == pat@.is_prefix_of(c@.skip(i as int)),
{
    if pat.len() > c.len() - i {
        return false;
    }
    let ghost rest = c@.skip(i as int);
    let mut k: usize = 0;
    while k < pat.len()
        invariant
            i <= c.len(),
            rest == c@.skip(i as int),
            pat.len() <= c.len() - i,
            k <= pat.len(),
            forall|m: int| 0 <= m < k ==> rest[m] == pat@[m],
        decreases pat.len() - k,
    {
        if c[i + k] != pat[k] {
            assert(rest[k as int] != pat@[k as int]);
            return false;
        }
        k = k + 1;
    }
    assert(rest.subrange(0, pat@.len() as int) =~= pat@);
    true
}

/// `s` with every occurrence of `pat` turned into `rep`.
pub fn replace_all(s: &str, pat: &str, rep: &str) -> (r: String)
    requires
        pat@.len() > 0,
    ensures
        r@ == replaced(s@, pat@, rep@),
{
    let c = chars_of(s);
    let pc = chars_of(pat);
    let mut out = String::new();
    let mut start: usize = 0;
    let mut i: usize = 0;
    proof {
        assert(c@.skip(0) =~= s@);
        assert(c@.subrange(0, 0) =~= Seq::<char>::empty());
        assert(out@ + Seq::<char>::empty() + replaced(s@, pat@, rep@) =~= replaced(
            s@,
            pat@,
            rep@,
        ));
    }
    while i < c.len()
        invariant
            c@ == s@,
            pc@ == pat@,
            pat@.len() > 0,
            start <= i <= c.len(),
            out@ + c@.subrange(start as int, i as int) + replaced(
                c@.skip(i as int),
                pat@,
                rep@,
            ) == replaced(s@, pat@, rep@),
        decreases c.len() - i,
    {
        let ghost rest = c@.skip(i as int);
        let ghost before = out@;
        let ghost run = c@.subrange(start as int, i as int);
        if occurs_at(&c, i, &pc) {
            out.append(s.substring_char(start, i));
            out.append(rep);
            let n = pc.len();
            proof {
                assert(rest.skip(pat@.len() as int) =~= c@.skip(i + n));
                let tail = replaced(c@.skip(i + n), pat@, rep@);
                assert(c@.subrange(i + n, i + n) =~= Seq::<char>::empty());
                assert(before + run + (rep@ + tail) =~= (before + run + rep@) + Seq::<
                    char,
                >::empty() + tail);
            }
            i = i + n;
            start = i;
        } else {
            proof {
                assert(rest.drop_first() =~= c@.skip(i + 1));
                let tail = replaced(c@.skip(i + 1), pat@, rep@);
                assert(c@.subrange(start as int, i + 1) =~= run.push(rest[0]));
                assert(before + run + (seq![rest[0]] + tail) =~= before + run.push(rest[0])
                    + tail);
            }
            i = i + 1;
        }
    }
    out.append(s.substring_char(start, i));
    assert(c@.skip(i as int) =~= Seq::<char>::empty());
    assert(out@ =~= replaced(s@, pat@, rep@));
    out
}

// ---- reading numbers ----------------------------------------------------

/// `parts` with `sep` between each two.
pub open spec fn joined(parts: Seq<Seq<char>>, sep: Seq<char>) -> Seq<char>
    decreases parts.len(),
{
    if parts.len() == 0 {
        Seq::empty()
    } else if parts.len() == 1 {
        parts[0]
    } else {
        joined(parts.drop_last(), sep) + sep + parts.last()
    }
}

/// `parts` with `sep` between each two.
pub fn join(parts: &Vec<String>, sep: &str) -> (r: String)
    ensures
        r@ == joined(texts(parts@), sep@),
{
    let mut out = String::new();
    let mut i: usize = 0;
    let ghost all = texts(parts@);
    while i < parts.len()
        invariant
            all == texts(parts@),
            i <= parts.len(),
            out@ == joined(all.take(i as int), sep@),
        decreases parts.len() - i,
    {
        let ghost before = out@;
        if i > 0 {
            out.append(sep);
        }
        out.append(parts[i].as_str());
        proof {
            assert(all.take(i + 1).drop_last() =~= all.take(i as int));
            assert(all.take(i + 1).last() == parts@[i as int]@);
            if i == 0 {
                assert(out@ =~= all[0]);
            }
        }
        i = i + 1;
    }
    assert(all.take(i as int) =~= all);
    out
}


/// Whether `c` is a decimal digit.
pub open spec fn is_digit(c: char) -> bool {
    48 <= c as u32 <= 57
}

/// The number that the digits of `s` make.
pub open spec fn digits_value(s: Seq<char>) -> nat
    decreases s.len(),
{
    if s.len() == 0 {
        0
    } else {
        digits_value(s.drop_last()) * 10 + ((s.last() as u32) - 48) as nat
    }
}

/// The number that `s` spells: one or more decimal digits.
pub open spec fn number(s: Seq<char>) -> Option<nat> {
    if s.len() > 0 && (forall|i: int| 0 <= i < s.len() ==> is_digit(#[trigger] s[i])) {
        Some(digits_value(s))
    } else {
        None
    }
}

/// The number that `s` spells, with or without a plus sign.
pub open spec fn unsigned_number(s: Seq<char>) -> Option<nat> {
    if s.len() > 0 && s[0] == '+' {
        number(s.drop_first())
    } else {
        number(s)
    }
}

/// The number that `s` spells, with or without a sign.
pub open spec fn signed_number(s: Seq<char>) -> Option<int> {
    if s.len() > 0 && s[0] == '-' {
        match number(s.drop_first()) {
            Some(n) => Some(-(n as int)),
            None => None,
        }
    } else {
        match unsigned_number(s) {
            Some(n) => Some(n as int),
            None => None,
        }
    }
}

proof fn lemma_value_grows(s: Seq<char>, k: int)
    requires
        0 <= k <= s.len(),
        forall|i: int| 0 <= i < s.len() ==> is_digit(#[trigger] s[i]),
    ensures
        digits_value(s.take(k)) <= digits_value(s),
    decreases s.len() - k,
{
    if k == s.len() {
        assert(s.take(k) =~= s);
    } else {
        assert(s.take(k + 1).drop_last() =~= s.take(k));
        assert(is_digit(s[k]));
        lemma_value_grows(s, k + 1);
    }
}

/// The number that `s` spells, with or without a plus sign, where it fits.
pub fn parse_unsigned(s: &str) -> (r: Option<usize>)
    ensures
        match r {
            Some(n) => unsigned_number(s@) == Some(n as nat),
            None => match unsigned_number(s@) {
                Some(n) => n > usize::MAX,
                None => true,
            },
        },
{
    let c = chars_of(s);
    let from: usize = if c.len() > 0 && c[0] == '+' {
        1
    } else {
        0
    };
    let ghost body = c@.skip(from as int);
    proof {
        if from == 0 {
            assert(body =~= s@);
        } else {
            assert(body =~= s@.drop_first());
        }
    }
    if from == c.len() {
        return None;
    }
    let mut n: usize = 0;
    let mut i: usize = from;
    assert(body.take(0).len() == 0);
    while i < c.len()
        invariant
            from <= i <= c.len(),
            body == c@.skip(from as int),
            unsigned_number(s@) == number(body),
            forall|k: int| 0 <= k < i - from ==> is_digit(#[trigger] body[k]),
            n == digits_value(body.take(i - from)),
        decreases c.len() - i,
    {
        let d = c[i] as u32;
        assert(body[i - from] == c[i as int]);
        if d < 48 || d > 57 {
            assert(!is_digit(body[i - from]));
            return None;
        }
        let ghost k = i - from;
        let next: u128 = (n as u128) * 10 + ((d - 48) as u128);
        proof {
            assert(body.take(k + 1).drop_last() =~= body.take(k));
            assert(next == digits_value(body.take(k + 1)));
        }
        if next > usize::MAX as u128 {
            proof {
                if number(body) is Some {
                    lemma_value_grows(body, k + 1);
                }
            }
            return None;
        }
        n = next as usize;
        i = i + 1;
    }
    assert(body.take(i - from) =~= body);
    Some(n)
}

} // verus!
