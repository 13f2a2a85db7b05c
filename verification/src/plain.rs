//! Numbers, texts and names in plain terms, and that the library's own agree.
use vstd::prelude::*;

use crate::query;
use crate::text;

verus! {

// ---- numbers ------------------------------------------------------------

/// Whether every character is a decimal digit.
pub open spec fn all_digits(d: Seq<char>) -> bool {
    forall|i: int| 0 <= i < d.len() ==> '0' <= #[trigger] d[i] <= '9'
}

/// The number that digits spell.
pub open spec fn read_digits(d: Seq<char>) -> int
    decreases d.len(),
{
    if d.len() == 0 {
        0
    } else {
        10 * read_digits(d.drop_last()) + (d[d.len() - 1] as u32 - '0' as u32)
    }
}

/// Whether the text is how the number is written in decimal, without zeros in
/// front.
pub open spec fn is_numeral(d: Seq<char>, n: int) -> bool {
    if n < 0 {
        d.len() > 0 && d[0] == '-' && is_numeral_of_nat(d.drop_first(), -n)
    } else {
        is_numeral_of_nat(d, n)
    }
}

pub open spec fn is_numeral_of_nat(d: Seq<char>, n: int) -> bool {
    &&& d.len() > 0
    &&& all_digits(d)
    &&& read_digits(d) == n
    &&& d[0] == '0' ==> d.len() == 1
}

/// How the number is written.
pub open spec fn numeral(n: int) -> Seq<char> {
    choose|d: Seq<char>| is_numeral(d, n)
}

proof fn lemma_digit(d: int)
    requires
        0 <= d < 10,
    ensures
        '0' <= text::digit(d) <= '9',
        text::digit(d) as u32 - '0' as u32 == d,
        text::digit(d) == '0' <==> d == 0,
{
}

proof fn lemma_nat_written(n: nat)
    ensures
        is_numeral_of_nat(text::dec_nat(n), n as int),
        n > 0 ==> text::dec_nat(n)[0] != '0',
    decreases n,
{
    let d = text::dec_nat(n);
    if n < 10 {
        lemma_digit(n as int);
        assert(d.drop_last() =~= Seq::<char>::empty());
        assert(read_digits(d.drop_last()) == 0);
        assert(all_digits(d));
    } else {
        let init = text::dec_nat(n / 10);
        lemma_nat_written(n / 10);
        lemma_digit((n % 10) as int);
        assert(d.drop_last() =~= init);
        assert(d[0] == init[0]);
        assert(all_digits(d)) by {
            assert forall|i: int| 0 <= i < d.len() implies '0' <= #[trigger] d[i] <= '9' by {
                if i < init.len() {
                    assert(d[i] == init[i]);
                }
            }
        }
        assert(10 * (n / 10) + n % 10 == n);
    }
}

/// Digits spell a number of as many digits as they are.
proof fn lemma_read_sign(d: Seq<char>)
    requires
        all_digits(d),
    ensures
        read_digits(d) >= 0,
        d.len() > 1 && d[0] != '0' ==> read_digits(d) >= 10,
        d.len() > 0 && d[0] != '0' ==> read_digits(d) >= 1,
        d.len() == 1 ==> read_digits(d) <= 9,
    decreases d.len(),
{
    if d.len() > 0 {
        let init = d.drop_last();
        assert forall|i: int| 0 <= i < init.len() implies '0' <= #[trigger] init[i] <= '9' by {
            assert(init[i] == d[i]);
        }
        lemma_read_sign(init);
        assert('0' <= d[d.len() - 1] <= '9');
        lemma_char_digit(d[d.len() - 1]);
        if d.len() > 1 {
            assert(init[0] == d[0]);
        } else {
            assert(init =~= Seq::<char>::empty());
            lemma_char_digit(d[0]);
        }
    }
}

/// Digits spell no number below zero.
pub proof fn lemma_not_below_zero(d: Seq<char>)
    requires
        all_digits(d),
    ensures
        read_digits(d) >= 0,
{
    lemma_read_sign(d);
}

proof fn lemma_char_digit(c: char)
    requires
        '0' <= c <= '9',
    ensures
        0 <= c as u32 - '0' as u32 <= 9,
        c != '0' ==> c as u32 - '0' as u32 >= 1,
{
}

proof fn lemma_char_same(c: char, d: char)
    requires
        c as u32 == d as u32,
    ensures
        c == d,
{
}

proof fn lemma_nat_once(d: Seq<char>, e: Seq<char>, n: int)
    requires
        is_numeral_of_nat(d, n),
        is_numeral_of_nat(e, n),
    ensures
        d == e,
    decreases d.len() + e.len(),
{
    lemma_read_sign(d);
    lemma_read_sign(e);
    let x = d[d.len() - 1];
    let y = e[e.len() - 1];
    lemma_char_digit(x);
    lemma_char_digit(y);
    if d.len() == 1 || e.len() == 1 {
        assert(d.len() == 1 && e.len() == 1);
        assert(d.drop_last() =~= Seq::<char>::empty());
        assert(e.drop_last() =~= Seq::<char>::empty());
        assert(read_digits(d.drop_last()) == 0);
        assert(read_digits(e.drop_last()) == 0);
        lemma_char_same(x, y);
        assert(d =~= e);
    } else {
        let p = d.drop_last();
        let q = e.drop_last();
        assert(p[0] == d[0] && q[0] == e[0]);
        assert forall|i: int| 0 <= i < p.len() implies '0' <= #[trigger] p[i] <= '9' by {
            assert(p[i] == d[i]);
        }
        assert forall|i: int| 0 <= i < q.len() implies '0' <= #[trigger] q[i] <= '9' by {
            assert(q[i] == e[i]);
        }
        let a = x as u32 - '0' as u32;
        let b = y as u32 - '0' as u32;
        assert(10 * read_digits(p) + a == 10 * read_digits(q) + b);
        assert(read_digits(p) == read_digits(q) && a == b);
        lemma_char_same(x, y);
        lemma_nat_once(p, q, read_digits(p));
        assert(d =~= p.push(x));
        assert(e =~= q.push(y));
    }
}

/// Numbers are written in decimal: digits, a sign before those of a number below
/// zero, no zeros in front. Reading the digits gives the number back.
pub proof fn law_numbers_are_written_in_decimal(n: int)
    ensures
        is_numeral(text::dec(n), n),
        text::dec(n) == numeral(n),
        n >= 0 ==> text::dec_nat(n as nat) == numeral(n),
{
    if n < 0 {
        lemma_nat_written((-n) as nat);
        let d = text::dec(n);
        assert(d.drop_first() =~= text::dec_nat((-n) as nat));
    } else {
        lemma_nat_written(n as nat);
    }
    assert(is_numeral(text::dec(n), n));
    law_numerals_tell_numbers(text::dec(n), numeral(n), n, n);
}

/// A number is written in one way, and two numbers are written in two.
pub proof fn law_numerals_tell_numbers(d: Seq<char>, e: Seq<char>, n: int, m: int)
    requires
        is_numeral(d, n),
        is_numeral(e, m),
    ensures
        d == e <==> n == m,
{
    if n == m {
        if n < 0 {
            lemma_nat_once(d.drop_first(), e.drop_first(), -n);
            assert(d =~= seq!['-'] + d.drop_first());
            assert(e =~= seq!['-'] + e.drop_first());
        } else {
            lemma_nat_once(d, e, n);
        }
    } else if d == e {
        if n >= 0 {
            assert('0' <= d[0] <= '9');
        }
        if m >= 0 {
            assert('0' <= e[0] <= '9');
        }
    }
}

/// Different numbers are written differently.
pub proof fn law_numerals_differ(n: int, m: int)
    ensures
        numeral(n) == numeral(m) <==> n == m,
{
    law_numbers_are_written_in_decimal(n);
    law_numbers_are_written_in_decimal(m);
    law_numerals_tell_numbers(numeral(n), numeral(m), n, m);
}

/// A word is read as a number exactly where it is digits, with or without a plus
/// before them, and then as the number that they spell.
pub proof fn law_words_are_read_as_numbers(s: Seq<char>)
    ensures
        text::unsigned_number(s) == (if s.len() > 0 && all_digits(s) {
            Some(read_digits(s) as nat)
        } else if s.len() > 1 && s[0] == '+' && all_digits(s.drop_first()) {
            Some(read_digits(s.drop_first()) as nat)
        } else {
            None
        }),
{
    lemma_numbers(s);
    if s.len() > 0 && s[0] == '+' {
        lemma_numbers(s.drop_first());
        if all_digits(s) {
            assert('0' <= s[0] <= '9');
        }
    }
}

pub proof fn lemma_numbers(s: Seq<char>)
    ensures
        text::number(s) == (if s.len() > 0 && all_digits(s) {
            Some(read_digits(s) as nat)
        } else {
            None::<nat>
        }),
{
    if all_digits(s) {
        lemma_same_value(s);
        assert forall|i: int| 0 <= i < s.len() implies text::is_digit(#[trigger] s[i]) by {
            assert('0' <= s[i] <= '9');
            lemma_char_digit(s[i]);
        }
    } else {
        let i = choose|i: int| 0 <= i < s.len() && !('0' <= #[trigger] s[i] <= '9');
        lemma_no_digit(s[i]);
        assert(!text::is_digit(s[i]));
    }
}

proof fn lemma_no_digit(c: char)
    requires
        !('0' <= c <= '9'),
    ensures
        !text::is_digit(c),
{
}

proof fn lemma_same_value(s: Seq<char>)
    requires
        all_digits(s),
    ensures
        text::digits_value(s) == read_digits(s),
        read_digits(s) >= 0,
    decreases s.len(),
{
    lemma_read_sign(s);
    if s.len() > 0 {
        let init = s.drop_last();
        assert forall|i: int| 0 <= i < init.len() implies '0' <= #[trigger] init[i] <= '9' by {
            assert(init[i] == s[i]);
        }
        assert('0' <= s[s.len() - 1] <= '9');
        lemma_char_digit(s[s.len() - 1]);
        lemma_same_value(init);
    }
}

// ---- the order of texts -------------------------------------------------

/// Whether `a` is not after `b`: it is the start of `b`, or has the lesser
/// character where they first differ.
pub open spec fn not_after(a: Seq<char>, b: Seq<char>) -> bool {
    exists|k: int| #[trigger] parts_at(a, b, k) && (k == a.len() || (k < b.len() && a[k] < b[k]))
}

/// Whether the texts are the same before the place, and both reach to it.
pub open spec fn parts_at(a: Seq<char>, b: Seq<char>, k: int) -> bool {
    0 <= k <= a.len() && k <= b.len() && forall|i: int| 0 <= i < k ==> a[i] == #[trigger] b[i]
}

/// Texts are ordered by their characters, from the first on.
pub proof fn law_texts_are_ordered_by_characters(a: Seq<char>, b: Seq<char>)
    ensures
        text::text_le(a, b) <==> not_after(a, b),
    decreases a.len(),
{
    if a.len() == 0 {
        assert(parts_at(a, b, 0));
    } else if b.len() == 0 {
        assert forall|k: int| #[trigger] parts_at(a, b, k) implies k == 0 by {}
    } else if a[0] != b[0] {
        lemma_chars_differ(a[0], b[0]);
        assert(parts_at(a, b, 0));
        assert forall|k: int| #[trigger] parts_at(a, b, k) implies k == 0 by {
            if k > 0 {
                assert(a[0] == b[0]);
            }
        }
    } else {
        let c = a.drop_first();
        let d = b.drop_first();
        law_texts_are_ordered_by_characters(c, d);
        if not_after(c, d) {
            let k = choose|k: int| #[trigger]
                parts_at(c, d, k) && (k == c.len() || (k < d.len() && c[k] < d[k]));
            assert forall|i: int| 0 <= i < k + 1 implies a[i] == #[trigger] b[i] by {
                if i > 0 {
                    assert(c[i - 1] == d[i - 1]);
                }
            }
            assert(parts_at(a, b, k + 1));
        }
        if not_after(a, b) {
            let k = choose|k: int| #[trigger]
                parts_at(a, b, k) && (k == a.len() || (k < b.len() && a[k] < b[k]));
            assert(k > 0);
            assert forall|i: int| 0 <= i < k - 1 implies c[i] == #[trigger] d[i] by {
                assert(a[i + 1] == b[i + 1]);
            }
            assert(parts_at(c, d, k - 1));
        }
    }
}

proof fn lemma_chars_differ(x: char, y: char)
    ensures
        x < y <==> (x as u32) < (y as u32),
{
}

/// Whether a place in a file is not after another: files by their paths, places
/// in one file by their lines.
pub open spec fn place_not_after(p: Seq<char>, l: int, q: Seq<char>, m: int) -> bool {
    if p == q {
        l <= m
    } else {
        not_after(p, q)
    }
}

/// Places are ordered by path and line.
pub proof fn law_places_are_ordered_by_path_and_line(
    p: Seq<char>,
    l: i64,
    q: Seq<char>,
    m: i64,
)
    ensures
        query::place_le(p, l, q, m) <==> place_not_after(p, l as int, q, m as int),
{
    law_texts_are_ordered_by_characters(p, q);
}

// ---- texts in texts -----------------------------------------------------

/// Whether the characters are the same, or are the two cases of one ASCII letter.
pub open spec fn same_letter(c: char, d: char) -> bool {
    ||| c == d
    ||| 'A' <= c <= 'Z' && d as u32 == c as u32 + 32
    ||| 'A' <= d <= 'Z' && c as u32 == d as u32 + 32
}

proof fn lemma_same_letter(c: char, d: char)
    ensures
        text::fold(c) == text::fold(d) <==> same_letter(c, d),
{
    let x = c as u32;
    let y = d as u32;
    if 65 <= x <= 90 {
        assert(((x + 32) as char) as u32 == x + 32);
    }
    if 65 <= y <= 90 {
        assert(((y + 32) as char) as u32 == y + 32);
    }
    if x == y {
        lemma_char_same(c, d);
    }
}

/// Whether `part` stands at the place of `t`, ASCII letters in either case.
pub open spec fn stands_at(t: Seq<char>, k: int, part: Seq<char>) -> bool {
    &&& 0 <= k <= t.len() - part.len()
    &&& forall|i: int| 0 <= i < part.len() ==> same_letter(t[k + i], #[trigger] part[i])
}

proof fn lemma_stands(t: Seq<char>, k: int, part: Seq<char>)
    requires
        0 <= k <= t.len(),
    ensures
        text::starts_nocase(t.skip(k), part) <==> stands_at(t, k, part),
{
    let u = t.skip(k);
    assert forall|i: int| 0 <= i < part.len() && part.len() <= u.len() implies (text::fold(u[i])
        == text::fold(#[trigger] part[i]) <==> same_letter(t[k + i], part[i])) by {
        assert(u[i] == t[k + i]);
        lemma_same_letter(u[i], part[i]);
    }
    if text::starts_nocase(u, part) {
        assert forall|i: int| 0 <= i < part.len() implies same_letter(
            t[k + i],
            #[trigger] part[i],
        ) by {
            assert(text::fold(u[i]) == text::fold(part[i]));
        }
    }
    if stands_at(t, k, part) {
        assert forall|i: int| 0 <= i < part.len() implies text::fold(u[i]) == text::fold(
            #[trigger] part[i],
        ) by {
            assert(same_letter(t[k + i], part[i]));
        }
    }
}

/// A text holds a part exactly where the part stands somewhere in it.
pub proof fn law_texts_hold_their_parts(t: Seq<char>, part: Seq<char>)
    ensures
        text::holds_nocase(t, part) <==> exists|k: int| stands_at(t, k, part),
{
    if text::holds_nocase(t, part) {
        let k = choose|k: int| 0 <= k <= t.len() && #[trigger] text::starts_nocase(t.skip(k), part);
        lemma_stands(t, k, part);
        assert(stands_at(t, k, part));
    }
    if exists|k: int| stands_at(t, k, part) {
        let k = choose|k: int| stands_at(t, k, part);
        lemma_stands(t, k, part);
        assert(text::starts_nocase(t.skip(k), part));
    }
}

/// Whether the parts stand at the places of `t`, none before the end of the one
/// before it.
pub open spec fn stand_at(t: Seq<char>, places: Seq<int>, parts: Seq<Seq<char>>) -> bool {
    &&& places.len() == parts.len()
    &&& forall|i: int| 0 <= i < parts.len() ==> stands_at(t, places[i], #[trigger] parts[i])
    &&& forall|i: int|
        0 < i < parts.len() ==> places[i - 1] + parts[i - 1].len() <= #[trigger] places[i]
}

/// Places for the parts behind the first, told from the end of the first.
proof fn lemma_place_first(t: Seq<char>, k: int, ps: Seq<int>, parts: Seq<Seq<char>>)
    requires
        parts.len() > 0,
        stands_at(t, k, parts[0]),
        stand_at(t.skip(k + parts[0].len()), ps, parts.drop_first()),
    ensures
        stand_at(t, seq![k] + ps.map_values(|p: int| p + k + parts[0].len()), parts),
{
    let rest = parts.drop_first();
    let n = parts[0].len() as int;
    let u = t.skip(k + n);
    let places = seq![k] + ps.map_values(|p: int| p + k + parts[0].len());
    assert forall|i: int| 0 <= i < parts.len() implies stands_at(
        t,
        places[i],
        #[trigger] parts[i],
    ) by {
        if i > 0 {
            assert(rest[i - 1] == parts[i]);
            assert(stands_at(u, ps[i - 1], rest[i - 1]));
            lemma_stands_in_skip(t, k + n, ps[i - 1], rest[i - 1]);
        }
    }
    assert forall|i: int| 0 < i < parts.len() implies places[i - 1] + parts[i - 1].len()
        <= #[trigger] places[i] by {
        assert(stands_at(u, ps[i - 1], rest[i - 1]));
        assert(places[i] == ps[i - 1] + k + n);
        if i > 1 {
            assert(ps[i - 2] + rest[i - 2].len() <= ps[i - 1]);
            assert(places[i - 1] == ps[i - 2] + k + n);
        }
    }
}

proof fn lemma_place_rest(t: Seq<char>, places: Seq<int>, parts: Seq<Seq<char>>)
    requires
        parts.len() > 0,
        stand_at(t, places, parts),
    ensures
        stand_at(
            t.skip(places[0] + parts[0].len()),
            places.drop_first().map_values(|p: int| p - places[0] - parts[0].len()),
            parts.drop_first(),
        ),
{
    let rest = parts.drop_first();
    let k = places[0];
    let n = parts[0].len() as int;
    let u = t.skip(k + n);
    let ps = places.drop_first().map_values(|p: int| p - places[0] - parts[0].len());
    assert(stands_at(t, k, parts[0]));
    lemma_places_ascend(t, places, parts);
    assert forall|i: int| 0 <= i < rest.len() implies stands_at(
        u,
        ps[i],
        #[trigger] rest[i],
    ) by {
        assert(rest[i] == parts[i + 1]);
        assert(stands_at(t, places[i + 1], parts[i + 1]));
        assert(ps[i] == places[i + 1] - k - n);
        lemma_stands_in_skip(t, k + n, ps[i], rest[i]);
    }
    assert forall|i: int| 0 < i < rest.len() implies ps[i - 1] + rest[i - 1].len()
        <= #[trigger] ps[i] by {
        assert(ps[i] == places[i + 1] - k - n);
        assert(ps[i - 1] == places[i] - k - n);
        assert(places[i] + parts[i].len() <= places[i + 1]);
    }
}

/// A text holds parts in their order exactly where there are places for them, one
/// after the other.
pub proof fn law_texts_hold_parts_in_order(t: Seq<char>, parts: Seq<Seq<char>>)
    ensures
        text::holds_in_order(t, parts) <==> exists|places: Seq<int>| stand_at(t, places, parts),
    decreases parts.len(),
{
    if parts.len() == 0 {
        assert(stand_at(t, Seq::empty(), parts));
    } else {
        let rest = parts.drop_first();
        let n = parts[0].len() as int;
        if text::holds_in_order(t, parts) {
            let k = choose|k: int|
                0 <= k <= t.len() && #[trigger] text::starts_nocase(t.skip(k), parts[0])
                    && text::holds_in_order(t.skip(k).skip(n), rest);
            lemma_stands(t, k, parts[0]);
            assert(t.skip(k).skip(n) =~= t.skip(k + n));
            let u = t.skip(k + n);
            law_texts_hold_parts_in_order(u, rest);
            let ps = choose|ps: Seq<int>| stand_at(u, ps, rest);
            lemma_place_first(t, k, ps, parts);
        }
        if exists|places: Seq<int>| stand_at(t, places, parts) {
            let places = choose|places: Seq<int>| stand_at(t, places, parts);
            let k = places[0];
            assert(stands_at(t, k, parts[0]));
            lemma_stands(t, k, parts[0]);
            assert(t.skip(k).skip(n) =~= t.skip(k + n));
            lemma_place_rest(t, places, parts);
            law_texts_hold_parts_in_order(t.skip(k + n), rest);
            assert(text::starts_nocase(t.skip(k), parts[0]));
        }
    }
}

proof fn lemma_places_ascend(t: Seq<char>, places: Seq<int>, parts: Seq<Seq<char>>)
    requires
        stand_at(t, places, parts),
        parts.len() > 0,
    ensures
        forall|i: int|
            0 < i < parts.len() ==> places[0] + parts[0].len() <= #[trigger] places[i],
    decreases parts.len(),
{
    if parts.len() > 1 {
        let n = parts.len() - 1;
        let p = places.drop_last();
        let q = parts.drop_last();
        assert forall|i: int| 0 <= i < q.len() implies stands_at(t, p[i], #[trigger] q[i]) by {
            assert(q[i] == parts[i]);
        }
        assert forall|i: int| 0 < i < q.len() implies p[i - 1] + q[i - 1].len()
            <= #[trigger] p[i] by {
            assert(places[i - 1] + parts[i - 1].len() <= places[i]);
        }
        lemma_places_ascend(t, p, q);
        assert forall|i: int| 0 < i < parts.len() implies places[0] + parts[0].len()
            <= #[trigger] places[i] by {
            if i < n {
                assert(p[i] == places[i]);
            } else {
                assert(places[n - 1] + parts[n - 1].len() <= places[n]);
                if n > 1 {
                    assert(p[n - 1] == places[n - 1]);
                }
            }
        }
    }
}

proof fn lemma_stands_in_skip(t: Seq<char>, m: int, k: int, part: Seq<char>)
    requires
        0 <= m <= t.len(),
        0 <= k,
    ensures
        stands_at(t.skip(m), k, part) <==> stands_at(t, m + k, part),
{
    let u = t.skip(m);
    if stands_at(u, k, part) {
        assert forall|i: int| 0 <= i < part.len() implies same_letter(
            t[m + k + i],
            #[trigger] part[i],
        ) by {
            assert(same_letter(u[k + i], part[i]));
        }
    }
    if stands_at(t, m + k, part) {
        assert forall|i: int| 0 <= i < part.len() implies same_letter(
            u[k + i],
            #[trigger] part[i],
        ) by {
            assert(same_letter(t[m + k + i], part[i]));
        }
    }
}

} // verus!
