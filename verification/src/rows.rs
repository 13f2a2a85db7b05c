//! Sequences of result rows: collecting, removing repeats, ordering.
use vstd::hash_map::{HashMapWithView, StringHashMap};
use vstd::prelude::*;

use crate::text;

verus! {

// ---- collecting ---------------------------------------------------------

/// What `f` gives for each element of `s`, one after the other.
pub open spec fn gather<A, B>(s: Seq<A>, f: spec_fn(A) -> Seq<B>) -> Seq<B>
    decreases s.len(),
{
    if s.len() == 0 {
        Seq::empty()
    } else {
        f(s[0]) + gather(s.drop_first(), f)
    }
}

/// One step of a loop that collects: what was collected before position `i`,
/// what `s[i]` gives, and the rest.
pub proof fn lemma_gather_step<A, B>(s: Seq<A>, f: spec_fn(A) -> Seq<B>, out: Seq<B>, i: int)
    requires
        0 <= i < s.len(),
    ensures
        out + gather(s.skip(i), f) == (out + f(s[i])) + gather(s.skip(i + 1), f),
{
    assert(s.skip(i).drop_first() =~= s.skip(i + 1));
    assert(out + (f(s[i]) + gather(s.skip(i + 1), f)) =~= (out + f(s[i])) + gather(
        s.skip(i + 1),
        f,
    ));
}

/// The start of a loop that collects.
pub proof fn lemma_gather_start<A, B>(s: Seq<A>, f: spec_fn(A) -> Seq<B>)
    ensures
        Seq::<B>::empty() + gather(s.skip(0), f) == gather(s, f),
{
    assert(s.skip(0) =~= s);
    assert(Seq::<B>::empty() + gather(s, f) =~= gather(s, f));
}

/// The end of a loop that collects.
pub proof fn lemma_gather_end<A, B>(s: Seq<A>, f: spec_fn(A) -> Seq<B>, out: Seq<B>)
    ensures
        out + gather(s.skip(s.len() as int), f) == out,
{
    assert(out + gather(s.skip(s.len() as int), f) =~= out);
}

/// Collecting over a concatenation collects over its two parts.
pub proof fn lemma_gather_concat<A, B>(s: Seq<A>, t: Seq<A>, f: spec_fn(A) -> Seq<B>)
    ensures
        gather(s + t, f) == gather(s, f) + gather(t, f),
    decreases s.len(),
{
    if s.len() == 0 {
        assert(s + t =~= t);
        assert(gather(s, f) + gather(t, f) =~= gather(t, f));
    } else {
        assert((s + t).drop_first() =~= s.drop_first() + t);
        lemma_gather_concat(s.drop_first(), t, f);
        assert(f(s[0]) + (gather(s.drop_first(), f) + gather(t, f)) =~= (f(s[0]) + gather(
            s.drop_first(),
            f,
        )) + gather(t, f));
    }
}

/// Two functions that agree on the elements of `s` collect the same.
pub proof fn lemma_gather_same<A, B>(
    s: Seq<A>,
    f: spec_fn(A) -> Seq<B>,
    g: spec_fn(A) -> Seq<B>,
)
    requires
        forall|i: int| 0 <= i < s.len() ==> f(#[trigger] s[i]) == g(s[i]),
    ensures
        gather(s, f) == gather(s, g),
    decreases s.len(),
{
    if s.len() > 0 {
        let t = s.drop_first();
        assert forall|i: int| 0 <= i < t.len() implies f(#[trigger] t[i]) == g(t[i]) by {
            assert(t[i] == s[i + 1]);
        }
        lemma_gather_same(t, f, g);
    }
}

/// Where `f` gives nothing for any element, nothing is collected.
pub proof fn lemma_gather_nothing<A, B>(s: Seq<A>, f: spec_fn(A) -> Seq<B>)
    requires
        forall|i: int| 0 <= i < s.len() ==> f(#[trigger] s[i]) == Seq::<B>::empty(),
    ensures
        gather(s, f) == Seq::<B>::empty(),
    decreases s.len(),
{
    if s.len() > 0 {
        let t = s.drop_first();
        assert forall|i: int| 0 <= i < t.len() implies f(#[trigger] t[i]) == Seq::<
            B,
        >::empty() by {
            assert(t[i] == s[i + 1]);
        }
        lemma_gather_nothing(t, f);
    }
}

// ---- keeping some -------------------------------------------------------

/// The elements of `s` that `p` holds of.
pub open spec fn keep<A>(s: Seq<A>, p: spec_fn(A) -> bool) -> Seq<A> {
    gather(s, pick(p))
}

/// What an element adds to those that `p` holds of.
pub open spec fn pick<A>(p: spec_fn(A) -> bool) -> spec_fn(A) -> Seq<A> {
    |a: A|
        if p(a) {
            seq![a]
        } else {
            Seq::empty()
        }
}

/// The kept elements are those of `s` that `p` holds of.
pub proof fn lemma_keep_members<A>(s: Seq<A>, p: spec_fn(A) -> bool, x: A)
    ensures
        keep(s, p).contains(x) <==> s.contains(x) && p(x),
    decreases s.len(),
{
    let k = keep(s, p);
    if s.len() == 0 {
        assert(k =~= Seq::<A>::empty());
    } else {
        let t = s.drop_first();
        lemma_keep_members(t, p, x);
        let rest = keep(t, p);
        if p(s[0]) {
            assert(k =~= seq![s[0]] + rest);
            if k.contains(x) {
                let i = choose|i: int| 0 <= i < k.len() && k[i] == x;
                if i == 0 {
                    assert(s[0] == x);
                } else {
                    assert(rest[i - 1] == x);
                    let j = choose|j: int| 0 <= j < t.len() && t[j] == x;
                    assert(s[j + 1] == x);
                }
            }
            if s.contains(x) && p(x) {
                let j = choose|j: int| 0 <= j < s.len() && s[j] == x;
                if j == 0 {
                    assert(k[0] == x);
                } else {
                    assert(t[j - 1] == x);
                    let i = choose|i: int| 0 <= i < rest.len() && rest[i] == x;
                    assert(k[i + 1] == x);
                }
            }
        } else {
            assert(k =~= rest);
            if rest.contains(x) {
                let j = choose|j: int| 0 <= j < t.len() && t[j] == x;
                assert(s[j + 1] == x);
            }
            if s.contains(x) && p(x) {
                let j = choose|j: int| 0 <= j < s.len() && s[j] == x;
                assert(t[j - 1] == x);
            }
        }
    }
}

/// What holds of each two elements of `s` in their order holds of the kept ones.
pub proof fn lemma_keep_pairs<A>(s: Seq<A>, p: spec_fn(A) -> bool, r: spec_fn(A, A) -> bool)
    requires
        forall|i: int, j: int| 0 <= i < j < s.len() ==> r(#[trigger] s[i], #[trigger] s[j]),
    ensures
        forall|i: int, j: int|
            0 <= i < j < keep(s, p).len() ==> r(
                #[trigger] keep(s, p)[i],
                #[trigger] keep(s, p)[j],
            ),
    decreases s.len(),
{
    if s.len() > 0 {
        let t = s.drop_first();
        let k = keep(s, p);
        let rest = keep(t, p);
        assert forall|i: int, j: int| 0 <= i < j < t.len() implies r(
            #[trigger] t[i],
            #[trigger] t[j],
        ) by {
            assert(r(s[i + 1], s[j + 1]));
        }
        lemma_keep_pairs(t, p, r);
        if p(s[0]) {
            assert(k =~= seq![s[0]] + rest);
            assert forall|i: int, j: int| 0 <= i < j < k.len() implies r(
                #[trigger] k[i],
                #[trigger] k[j],
            ) by {
                let y = rest[j - 1];
                if i == 0 {
                    assert(rest.contains(y));
                    lemma_keep_members(t, p, y);
                    let m = choose|m: int| 0 <= m < t.len() && t[m] == y;
                    assert(r(s[0], s[m + 1]));
                } else {
                    assert(r(rest[i - 1], rest[j - 1]));
                }
            }
        } else {
            assert(k =~= rest);
        }
    }
}

/// Nothing is dropped where `p` holds of everything.
pub proof fn lemma_keep_all<A>(s: Seq<A>, p: spec_fn(A) -> bool)
    requires
        forall|i: int| 0 <= i < s.len() ==> p(#[trigger] s[i]),
    ensures
        keep(s, p) == s,
    decreases s.len(),
{
    if s.len() > 0 {
        let t = s.drop_first();
        assert forall|i: int| 0 <= i < t.len() implies p(#[trigger] t[i]) by {
            assert(t[i] == s[i + 1]);
        }
        lemma_keep_all(t, p);
        assert(p(s[0]));
        assert(keep(s, p) =~= seq![s[0]] + t);
        assert(seq![s[0]] + t =~= s);
    }
    assert(keep(s, p) =~= s);
}

/// Collecting over the kept elements is collecting over all of them, where the
/// others give nothing.
pub proof fn lemma_gather_keep<A, B>(
    s: Seq<A>,
    p: spec_fn(A) -> bool,
    f: spec_fn(A) -> Seq<B>,
)
    requires
        forall|i: int| 0 <= i < s.len() && !p(#[trigger] s[i]) ==> f(s[i]) == Seq::<B>::empty(),
    ensures
        gather(keep(s, p), f) == gather(s, f),
    decreases s.len(),
{
    if s.len() > 0 {
        let t = s.drop_first();
        assert forall|i: int| 0 <= i < t.len() && !p(#[trigger] t[i]) implies f(t[i]) == Seq::<
            B,
        >::empty() by {
            assert(t[i] == s[i + 1]);
        }
        lemma_gather_keep(t, p, f);
        let rest = keep(t, p);
        if p(s[0]) {
            assert(keep(s, p) =~= seq![s[0]] + rest);
            assert(keep(s, p).drop_first() =~= rest);
        } else {
            assert(keep(s, p) =~= rest);
            assert(f(s[0]) == Seq::<B>::empty());
            assert(f(s[0]) + gather(t, f) =~= gather(t, f));
        }
    }
}

/// Where each element gives one thing at most, no more is collected than there
/// are elements.
pub proof fn lemma_gather_len<A, B>(s: Seq<A>, f: spec_fn(A) -> Seq<B>)
    requires
        forall|i: int| 0 <= i < s.len() ==> f(#[trigger] s[i]).len() <= 1,
    ensures
        gather(s, f).len() <= s.len(),
    decreases s.len(),
{
    if s.len() > 0 {
        let t = s.drop_first();
        assert forall|i: int| 0 <= i < t.len() implies f(#[trigger] t[i]).len() <= 1 by {
            assert(t[i] == s[i + 1]);
        }
        lemma_gather_len(t, f);
    }
}

/// What was collected came from an element.
pub proof fn lemma_gather_members<A, B>(s: Seq<A>, f: spec_fn(A) -> Seq<B>, y: B)
    ensures
        gather(s, f).contains(y) <==> exists|i: int| 0 <= i < s.len() && f(#[trigger] s[i]).contains(y),
    decreases s.len(),
{
    let all = gather(s, f);
    if s.len() > 0 {
        let t = s.drop_first();
        let rest = gather(t, f);
        lemma_gather_members(t, f, y);
        if all.contains(y) {
            let k = choose|k: int| 0 <= k < all.len() && all[k] == y;
            if k < f(s[0]).len() {
                assert(f(s[0])[k] == y);
                assert(f(s[0]).contains(y));
            } else {
                assert(rest[k - f(s[0]).len()] == y);
                let i = choose|i: int| 0 <= i < t.len() && f(#[trigger] t[i]).contains(y);
                assert(f(s[i + 1]).contains(y));
            }
        }
        if exists|i: int| 0 <= i < s.len() && f(#[trigger] s[i]).contains(y) {
            let i = choose|i: int| 0 <= i < s.len() && f(#[trigger] s[i]).contains(y);
            if i == 0 {
                let first = f(s[0]);
                let k = choose|k: int| 0 <= k < first.len() && first[k] == y;
                assert(all[k] == y);
            } else {
                assert(f(t[i - 1]).contains(y));
                let k = choose|k: int| 0 <= k < rest.len() && rest[k] == y;
                assert(all[f(s[0]).len() + k] == y);
            }
        }
    }
}

// ---- repeats ------------------------------------------------------------

/// `s` without repeats: of equal elements the first stays.
pub open spec fn distinct<A>(s: Seq<A>) -> Seq<A>
    decreases s.len(),
{
    if s.len() == 0 {
        s
    } else {
        let d = distinct(s.drop_last());
        if d.contains(s.last()) {
            d
        } else {
            d.push(s.last())
        }
    }
}

// ---- order --------------------------------------------------------------

/// `x` put into `s` after the last element that it is not before.
pub open spec fn insert_by<A>(s: Seq<A>, x: A, le: spec_fn(A, A) -> bool) -> Seq<A>
    decreases s.len(),
{
    if s.len() == 0 || le(s.last(), x) {
        s.push(x)
    } else {
        insert_by(s.drop_last(), x, le).push(s.last())
    }
}

/// `s` in the order `le`; elements that are equal in it keep their places to
/// each other.
pub open spec fn sorted<A>(s: Seq<A>, le: spec_fn(A, A) -> bool) -> Seq<A>
    decreases s.len(),
{
    if s.len() == 0 {
        s
    } else {
        insert_by(sorted(s.drop_last(), le), s.last(), le)
    }
}

/// The first `limit` elements of `s`, or all where there are fewer.
pub open spec fn first_of<A>(s: Seq<A>, limit: nat) -> Seq<A> {
    if s.len() <= limit {
        s
    } else {
        s.take(limit as int)
    }
}

// ---- what lists hold ----------------------------------------------------

/// Whether `le` orders any two elements, and does so without circles.
pub open spec fn is_order<A>(le: spec_fn(A, A) -> bool) -> bool {
    &&& forall|a: A, b: A| #[trigger] le(a, b) || le(b, a)
    &&& forall|a: A, b: A, c: A| #[trigger] le(a, b) && #[trigger] le(b, c) ==> le(a, c)
}

/// Whether the elements of `s` come in the order `le`.
pub open spec fn in_order<A>(s: Seq<A>, le: spec_fn(A, A) -> bool) -> bool {
    forall|i: int, j: int| 0 <= i < j < s.len() ==> le(#[trigger] s[i], #[trigger] s[j])
}

proof fn lemma_insert_in_order<A>(s: Seq<A>, x: A, le: spec_fn(A, A) -> bool)
    requires
        is_order(le),
        in_order(s, le),
    ensures
        in_order(insert_by(s, x, le), le),
        insert_by(s, x, le).to_multiset() == s.to_multiset().insert(x),
        insert_by(s, x, le).len() == s.len() + 1,
    decreases s.len(),
{
    broadcast use vstd::seq_lib::group_to_multiset_ensures;
    broadcast use vstd::multiset::group_multiset_axioms;

    let r = insert_by(s, x, le);
    if s.len() == 0 || le(s.last(), x) {
        assert forall|i: int, j: int| 0 <= i < j < r.len() implies le(
            #[trigger] r[i],
            #[trigger] r[j],
        ) by {
            if j == s.len() {
                if i < s.len() - 1 {
                    assert(le(s[i], s[s.len() - 1]));
                }
                assert(le(s.last(), x));
            } else {
                assert(le(s[i], s[j]));
            }
        }
    } else {
        let init = s.drop_last();
        let last = s.last();
        let before = insert_by(init, x, le);
        assert forall|i: int, j: int| 0 <= i < j < init.len() implies le(
            #[trigger] init[i],
            #[trigger] init[j],
        ) by {
            assert(le(s[i], s[j]));
        }
        lemma_insert_in_order(init, x, le);
        assert(init.push(last) =~= s);
        assert(le(x, last));
        assert forall|i: int, j: int| 0 <= i < j < r.len() implies le(
            #[trigger] r[i],
            #[trigger] r[j],
        ) by {
            if j == before.len() {
                let y = before[i];
                assert(before.contains(y));
                assert(before.to_multiset().count(y) > 0);
                if y != x {
                    assert(init.to_multiset().count(y) > 0);
                    assert(init.contains(y));
                    let k = choose|k: int| 0 <= k < init.len() && init[k] == y;
                    assert(le(s[k], s[s.len() - 1]));
                }
            } else {
                assert(le(before[i], before[j]));
            }
        }
        assert(r.to_multiset() =~= s.to_multiset().insert(x));
    }
}

/// Putting elements in an order puts them in that order, and neither adds nor
/// loses any.
pub proof fn law_sorting_orders<A>(s: Seq<A>, le: spec_fn(A, A) -> bool)
    requires
        is_order(le),
    ensures
        in_order(sorted(s, le), le),
        sorted(s, le).to_multiset() == s.to_multiset(),
        sorted(s, le).len() == s.len(),
    decreases s.len(),
{
    broadcast use vstd::seq_lib::group_to_multiset_ensures;

    if s.len() > 0 {
        let init = s.drop_last();
        law_sorting_orders(init, le);
        lemma_insert_in_order(sorted(init, le), s.last(), le);
        assert(init.push(s.last()) =~= s);
    }
}

/// Whether `x` comes in `s` before `y` first does.
pub open spec fn comes_first<A>(s: Seq<A>, x: A, y: A) -> bool {
    exists|k: int| #[trigger] comes_at(s, x, k) && forall|m: int| 0 <= m <= k ==> #[trigger] s[m] != y
}

/// Whether `x` is at the place.
pub open spec fn comes_at<A>(s: Seq<A>, x: A, k: int) -> bool {
    0 <= k < s.len() && s[k] == x
}

/// Elements that are left once come in the order in which they first came.
pub proof fn law_distinct_keeps_the_order<A>(s: Seq<A>)
    ensures
        forall|i: int, j: int|
            0 <= i < j < distinct(s).len() ==> comes_first(
                s,
                #[trigger] distinct(s)[i],
                #[trigger] distinct(s)[j],
            ),
    decreases s.len(),
{
    if s.len() > 0 {
        let init = s.drop_last();
        let d = distinct(init);
        let r = distinct(s);
        law_distinct_keeps_the_order(init);
        law_distinct_leaves_each_once(init);
        assert forall|i: int, j: int| 0 <= i < j < r.len() implies comes_first(
            s,
            #[trigger] r[i],
            #[trigger] r[j],
        ) by {
            assert(d[i] == r[i]);
            if j < d.len() {
                assert(d[j] == r[j]);
                assert(comes_first(init, d[i], d[j]));
                let k = choose|k: int| #[trigger]
                    comes_at(init, d[i], k) && forall|m: int| 0 <= m <= k ==> #[trigger] init[m] != d[j];
                assert forall|m: int| 0 <= m <= k implies #[trigger] s[m] != r[j] by {
                    assert(s[m] == init[m]);
                }
                assert(comes_at(s, r[i], k));
            } else {
                assert(d.contains(d[i]));
                let k = choose|k: int| 0 <= k < init.len() && init[k] == d[i];
                assert forall|m: int| 0 <= m <= k implies #[trigger] s[m] != r[j] by {
                    assert(s[m] == init[m]);
                    assert(init.contains(init[m]));
                }
                assert(comes_at(s, r[i], k));
            }
        }
    }
}

/// Where what is collected has `x` before it has `y`, an element that gives `x`
/// comes before any that gives `y`.
pub proof fn lemma_gather_first<A, B>(s: Seq<A>, f: spec_fn(A) -> Seq<B>, x: B, y: B) -> (k: int)
    requires
        forall|i: int| 0 <= i < s.len() ==> f(#[trigger] s[i]).len() <= 1,
        comes_first(gather(s, f), x, y),
    ensures
        0 <= k < s.len(),
        f(s[k]).contains(x),
        forall|m: int| 0 <= m <= k ==> !f(#[trigger] s[m]).contains(y),
    decreases s.len(),
{
    let all = gather(s, f);
    let c = choose|c: int| #[trigger]
        comes_at(all, x, c) && forall|m: int| 0 <= m <= c ==> #[trigger] all[m] != y;
    let init = s.drop_last();
    let last = s.last();
    let before = gather(init, f);
    assert(s =~= init + seq![last]);
    lemma_gather_concat(init, seq![last], f);
    reveal_with_fuel(gather, 2);
    assert(gather(seq![last], f) =~= f(last));
    assert(all == before + f(last));
    assert forall|i: int| 0 <= i < init.len() implies f(#[trigger] init[i]).len() <= 1 by {
        assert(init[i] == s[i]);
    }
    assert(f(s[s.len() - 1]).len() <= 1);
    if c < before.len() {
        assert(comes_first(before, x, y)) by {
            assert(comes_at(before, x, c));
            assert forall|m: int| 0 <= m <= c implies #[trigger] before[m] != y by {
                assert(all[m] == before[m]);
            }
        }
        let k = lemma_gather_first(init, f, x, y);
        assert forall|m: int| 0 <= m <= k implies !f(#[trigger] s[m]).contains(y) by {
            assert(s[m] == init[m]);
        }
        k
    } else {
        let k = s.len() - 1;
        assert(f(s[k])[0] == x);
        assert forall|m: int| 0 <= m <= k implies !f(#[trigger] s[m]).contains(y) by {
            if f(s[m]).contains(y) {
                lemma_gather_members(s, f, y);
                let n = choose|n: int| 0 <= n < all.len() && all[n] == y;
                assert(n <= c);
            }
        }
        k
    }
}

/// Removing repeats leaves each element once.
pub proof fn law_distinct_leaves_each_once<A>(s: Seq<A>)
    ensures
        distinct(s).no_duplicates(),
        forall|x: A| #[trigger] distinct(s).contains(x) <==> s.contains(x),
        distinct(s).len() <= s.len(),
    decreases s.len(),
{
    let r = distinct(s);
    if s.len() > 0 {
        let init = s.drop_last();
        let last = s.last();
        let d = distinct(init);
        law_distinct_leaves_each_once(init);
        assert(init.push(last) =~= s);
        assert forall|x: A| s.contains(x) <==> #[trigger] init.contains(x) || x == last by {
            if s.contains(x) {
                let i = choose|i: int| 0 <= i < s.len() && s[i] == x;
                if i < init.len() {
                    assert(init[i] == x);
                }
            }
            if init.contains(x) {
                let i = choose|i: int| 0 <= i < init.len() && init[i] == x;
                assert(s[i] == x);
            }
            assert(s[s.len() - 1] == last);
        }
        if !d.contains(last) {
            assert(r == d.push(last));
            assert forall|x: A| #[trigger] r.contains(x) <==> d.contains(x) || x == last by {
                if r.contains(x) {
                    let i = choose|i: int| 0 <= i < r.len() && r[i] == x;
                    if i < d.len() {
                        assert(d[i] == x);
                    }
                }
                if d.contains(x) {
                    let i = choose|i: int| 0 <= i < d.len() && d[i] == x;
                    assert(r[i] == x);
                }
                assert(r[d.len() as int] == last);
            }
            assert forall|i: int, j: int|
                0 <= i < r.len() && 0 <= j < r.len() && i != j implies r[i] != r[j] by {
                if i == d.len() {
                    assert(d.contains(d[j]));
                } else if j == d.len() {
                    assert(d.contains(d[i]));
                } else {
                    assert(d[i] != d[j]);
                }
            }
        }
        assert forall|x: A| #[trigger] r.contains(x) <==> s.contains(x) by {
            assert(d.contains(x) <==> init.contains(x));
        }
    }
}

/// A list without repeats, in an order and cut to a length, holds no row twice,
/// is in that order, holds only rows that were found, and holds all of them
/// unless it is as long as it may be.
pub proof fn law_lists_hold_what_was_found<A>(
    s: Seq<A>,
    le: spec_fn(A, A) -> bool,
    limit: nat,
)
    requires
        is_order(le),
    ensures
        ({
            let r = first_of(sorted(distinct(s), le), limit);
            &&& r.no_duplicates()
            &&& in_order(r, le)
            &&& forall|x: A| #[trigger] r.contains(x) ==> s.contains(x)
            &&& r.len() <= limit
            &&& distinct(s).len() <= limit ==> forall|x: A| #[trigger] s.contains(x) ==> r.contains(
                x,
            )
            &&& distinct(s).len() > limit ==> r.len() == limit
        }),
{
    broadcast use vstd::seq_lib::group_to_multiset_ensures;

    let d = distinct(s);
    let t = sorted(d, le);
    let r = first_of(t, limit);
    law_distinct_leaves_each_once(s);
    law_sorting_orders(d, le);
    d.lemma_multiset_has_no_duplicates();
    t.lemma_multiset_has_no_duplicates_conv();
    assert forall|x: A| #[trigger] t.contains(x) <==> s.contains(x) by {
        assert(t.to_multiset().count(x) == d.to_multiset().count(x));
        assert(d.contains(x) <==> s.contains(x));
    }
    assert forall|x: A| #[trigger] r.contains(x) implies s.contains(x) by {
        let i = choose|i: int| 0 <= i < r.len() && r[i] == x;
        assert(t[i] == x);
        assert(t.contains(x));
    }
    assert forall|i: int, j: int| 0 <= i < j < r.len() implies le(
        #[trigger] r[i],
        #[trigger] r[j],
    ) by {
        assert(le(t[i], t[j]));
    }
    assert forall|i: int, j: int| 0 <= i < r.len() && 0 <= j < r.len() && i != j implies r[i]
        != r[j] by {
        assert(t[i] != t[j]);
    }
}

// ---- rows ---------------------------------------------------------------

/// A result row.
pub trait Row: Sized {
    /// What the row says.
    type Said;

    spec fn said(&self) -> Self::Said;
}

/// A result row of a kind that is listed without repeats.
pub trait Distinct: Row {
    /// A number by which rows that say the same are found together.
    spec fn group_of(a: Self::Said) -> i64;

    fn group(&self) -> (r: i64)
        ensures
            r == Self::group_of(self.said()),
    ;

    fn same(&self, other: &Self) -> (r: bool)
        ensures
            r == (self.said() == other.said()),
    ;
}

/// A result row of a kind that is listed in an order.
pub trait Ordered: Row {
    /// Whether a row that says `a` may stand before one that says `b`.
    spec fn not_after(a: Self::Said, b: Self::Said) -> bool;

    /// Any two rows can be put in order.
    proof fn any_two(a: Self::Said, b: Self::Said)
        ensures
            Self::not_after(a, b) || Self::not_after(b, a),
    ;

    /// The order has no circles.
    proof fn no_circles(a: Self::Said, b: Self::Said, c: Self::Said)
        ensures
            Self::not_after(a, b) && Self::not_after(b, c) ==> Self::not_after(a, c),
    ;

    fn in_order(&self, other: &Self) -> (r: bool)
        ensures
            r == Self::not_after(self.said(), other.said()),
    ;
}

/// What the rows of `v` say.
pub open spec fn said_of<T: Row>(v: Seq<T>) -> Seq<T::Said> {
    v.map_values(|r: T| r.said())
}

/// The order of rows of the kind `T`.
pub open spec fn row_order<T: Ordered>() -> spec_fn(T::Said, T::Said) -> bool {
    |a: T::Said, b: T::Said| T::not_after(a, b)
}

/// The order of rows of a kind is one that any rows can be put in.
pub proof fn law_rows_can_be_ordered<T: Ordered>()
    ensures
        is_order(row_order::<T>()),
{
    let le = row_order::<T>();
    assert forall|a: T::Said, b: T::Said| #[trigger] le(a, b) || le(b, a) by {
        T::any_two(a, b);
    }
    assert forall|a: T::Said, b: T::Said, c: T::Said|
        #[trigger] le(a, b) && #[trigger] le(b, c) implies le(a, c) by {
        T::no_circles(a, b, c);
    }
}

/// `v` from its last element to its first.
pub fn reversed<T>(v: Vec<T>) -> (r: Vec<T>)
    ensures
        r@ == v@.reverse(),
{
    let ghost all = v@;
    let mut rest = v;
    let mut out: Vec<T> = Vec::new();
    assert(rest@ + out@.reverse() =~= all);
    while rest.len() > 0
        invariant
            rest@ + out@.reverse() == all,
        decreases rest.len(),
    {
        let ghost before = rest@;
        let ghost o = out@;
        match rest.pop() {
            Some(x) => {
                out.push(x);
                proof {
                    assert(before =~= rest@.push(x));
                    assert(rest@ + out@.reverse() =~= before + o.reverse());
                }
            },
            None => {},
        }
    }
    proof {
        assert(out@.reverse() =~= all);
        assert(all.reverse() =~= out@);
    }
    out
}

/// Whether `places` leads from each group to the rows of it.
spec fn filed<T: Distinct>(places: Map<i64, Vec<usize>>, out: Seq<T>) -> bool {
    &&& forall|k: int|
        0 <= k < out.len() ==> places.contains_key(T::group_of((#[trigger] out[k]).said()))
            && places[T::group_of(out[k].said())]@.contains(k as usize)
    &&& forall|g: i64, i: int|
        places.contains_key(g) && 0 <= i < places[g]@.len() ==> (#[trigger] places[g]@[i])
            < out.len()
}

/// Whether one of the rows says what `x` does.
fn has_same<T: Distinct>(out: &Vec<T>, places: &HashMapWithView<i64, Vec<usize>>, x: &T) -> (r:
    bool)
    requires
        filed(places@, out@),
    ensures
        r == said_of(out@).contains(x.said()),
{
    let group = x.group();
    match places.get(&group) {
        Some(list) => {
            let mut i: usize = 0;
            while i < list.len()
                invariant
                    filed(places@, out@),
                    group == T::group_of(x.said()),
                    places@.contains_key(group),
                    *list == places@[group],
                    i <= list.len(),
                    forall|m: int|
                        0 <= m < i ==> out@[(#[trigger] list@[m]) as int].said() != x.said(),
                decreases list.len() - i,
            {
                let k = list[i];
                assert(places@[group]@[i as int] < out@.len());
                if out[k].same(x) {
                    assert(said_of(out@)[k as int] == x.said());
                    return true;
                }
                i = i + 1;
            }
            proof {
                assert forall|k: int| 0 <= k < out@.len() implies said_of(out@)[k] != x.said() by {
                    if out@[k].said() == x.said() {
                        assert(k < out.len());
                        assert(list@.contains(k as usize));
                        let m = choose|m: int| 0 <= m < list@.len() && list@[m] == k as usize;
                        assert(out@[list@[m] as int].said() != x.said());
                    }
                }
            }
            false
        },
        None => {
            proof {
                assert forall|k: int| 0 <= k < out@.len() implies said_of(out@)[k] != x.said() by {
                    assert(places@.contains_key(T::group_of(out@[k].said())));
                }
            }
            false
        },
    }
}

/// Files the row that is about to be added to `out`.
fn file_row<T: Distinct>(out: &Vec<T>, places: &mut HashMapWithView<i64, Vec<usize>>, x: &T)
    requires
        filed(old(places)@, out@),
    ensures
        filed(final(places)@, out@.push(*x)),
{
    let group = x.group();
    let n = out.len();
    let mut list = match places.remove(&group) {
        Some(list) => list,
        None => Vec::new(),
    };
    let ghost before = list@;
    list.push(n);
    let ghost after = list@;
    places.insert(group, list);
    proof {
        let was = old(places)@;
        let now = places@;
        let all = out@.push(*x);
        assert(was.contains_key(group) ==> before == was[group]@);
        assert(!was.contains_key(group) ==> before.len() == 0);
        assert forall|k: int| 0 <= k < all.len() implies now.contains_key(
            T::group_of((#[trigger] all[k]).said()),
        ) && now[T::group_of(all[k].said())]@.contains(k as usize) by {
            let g = T::group_of(all[k].said());
            if k == n {
                assert(after[before.len() as int] == n);
            } else {
                assert(all[k] == out@[k]);
                assert(was.contains_key(g));
                if g == group {
                    let m = choose|m: int| 0 <= m < before.len() && before[m] == k as usize;
                    assert(after[m] == k as usize);
                }
            }
        }
        assert forall|g: i64, i: int| now.contains_key(g) && 0 <= i < now[g]@.len() implies (
        #[trigger] now[g]@[i]) < all.len() by {
            if g == group {
                if i < before.len() {
                    assert(was[g]@[i] < out@.len());
                }
            } else {
                assert(was.contains_key(g));
                assert(was[g]@[i] < out@.len());
            }
        }
    }
}

/// The rows of `v` without repeats.
pub fn distinct_rows<T: Distinct>(v: Vec<T>) -> (r: Vec<T>)
    ensures
        said_of(r@) == distinct(said_of(v@)),
{
    broadcast use vstd::std_specs::hash::group_hash_axioms;

    let ghost all = v@;
    let mut rest = reversed(v);
    let mut out: Vec<T> = Vec::new();
    let mut places: HashMapWithView<i64, Vec<usize>> = HashMapWithView::new();
    assert(said_of(out@) =~= distinct(said_of(all).take(0)));
    while rest.len() > 0
        invariant
            rest.len() <= all.len(),
            rest@ == all.reverse().take(rest.len() as int),
            said_of(out@) == distinct(said_of(all).take(all.len() - rest.len())),
            filed(places@, out@),
        decreases rest.len(),
    {
        let ghost n = all.len() - rest.len();
        let ghost o = out@;
        match rest.pop() {
            Some(x) => {
                proof {
                    assert(x == all[n]);
                    assert(said_of(all).take(n + 1).drop_last() =~= said_of(all).take(n));
                    assert(said_of(all).take(n + 1).last() == x.said());
                    assert(rest@ =~= all.reverse().take(rest.len() as int));
                }
                if !has_same(&out, &places, &x) {
                    let ghost said = x.said();
                    file_row(&out, &mut places, &x);
                    out.push(x);
                    assert(said_of(out@) =~= said_of(o).push(said));
                }
            },
            None => {},
        }
    }
    assert(said_of(all).take(all.len() as int) =~= said_of(all));
    out
}

/// How many different texts there are.
pub fn count_distinct(v: &Vec<String>) -> (n: usize)
    ensures
        n == distinct(text::texts(v@)).len(),
{
    let ghost all = text::texts(v@);
    let mut seen: StringHashMap<bool> = StringHashMap::new();
    let mut n: usize = 0;
    let mut i: usize = 0;
    assert(distinct(all.take(0)).len() == 0);
    while i < v.len()
        invariant
            all == text::texts(v@),
            i <= v.len(),
            n <= i,
            n == distinct(all.take(i as int)).len(),
            forall|t: Seq<char>| #[trigger]
                seen@.contains_key(t) <==> distinct(all.take(i as int)).contains(t),
        decreases v.len() - i,
    {
        let ghost before = distinct(all.take(i as int));
        let ghost was = seen@;
        proof {
            assert(all.take(i + 1).drop_last() =~= all.take(i as int));
            assert(all.take(i + 1).last() == v@[i as int]@);
        }
        if !seen.contains_key(v[i].as_str()) {
            seen.insert(v[i].clone(), true);
            n = n + 1;
            proof {
                let t0 = v@[i as int]@;
                let after = before.push(t0);
                assert forall|t: Seq<char>| #[trigger] seen@.contains_key(t) <==> after.contains(
                    t,
                ) by {
                    assert(was.contains_key(t) <==> before.contains(t));
                    if before.contains(t) {
                        let k = choose|k: int| 0 <= k < before.len() && before[k] == t;
                        assert(after[k] == t);
                    }
                    if after.contains(t) && t != t0 {
                        let k = choose|k: int| 0 <= k < after.len() && after[k] == t;
                        assert(before[k] == t);
                    }
                    assert(after[before.len() as int] == t0);
                }
            }
        }
        i = i + 1;
    }
    assert(all.take(i as int) =~= all);
    n
}

/// `a` and `b`, which are in the order `le`, in one; of elements that are equal
/// in it, those of `a` come first.
spec fn woven<A>(a: Seq<A>, b: Seq<A>, le: spec_fn(A, A) -> bool) -> Seq<A>
    decreases a.len() + b.len(),
{
    if b.len() == 0 {
        a
    } else if a.len() == 0 {
        b
    } else if le(a.last(), b.last()) {
        woven(a, b.drop_last(), le).push(b.last())
    } else {
        woven(a.drop_last(), b, le).push(a.last())
    }
}

proof fn lemma_woven_insert<A>(a: Seq<A>, b: Seq<A>, x: A, le: spec_fn(A, A) -> bool)
    requires
        is_order(le),
    ensures
        woven(a, insert_by(b, x, le), le) == insert_by(woven(a, b, le), x, le),
    decreases a.len() + b.len(),
{
    let c = insert_by(b, x, le);
    if b.len() == 0 || le(b.last(), x) {
        assert(c.last() == x);
        assert(c.drop_last() =~= b);
        if a.len() > 0 {
            if le(a.last(), x) {
                let m = woven(a, b, le);
                assert(m.len() > 0);
                assert(le(m.last(), x));
            } else {
                if b.len() > 0 && le(a.last(), b.last()) {
                    assert(le(a.last(), x));
                }
                lemma_woven_insert(a.drop_last(), b, x, le);
                let m = woven(a, b, le);
                assert(m.last() == a.last());
                assert(m.drop_last() =~= woven(a.drop_last(), b, le));
            }
        }
    } else {
        assert(c.last() == b.last());
        assert(c.drop_last() =~= insert_by(b.drop_last(), x, le));
        if a.len() > 0 {
            let m = woven(a, b, le);
            if le(a.last(), b.last()) {
                lemma_woven_insert(a, b.drop_last(), x, le);
                assert(m.last() == b.last());
                assert(m.drop_last() =~= woven(a, b.drop_last(), le));
            } else {
                assert(le(b.last(), a.last()));
                if le(a.last(), x) {
                    assert(le(b.last(), x));
                }
                lemma_woven_insert(a.drop_last(), b, x, le);
                assert(m.last() == a.last());
                assert(m.drop_last() =~= woven(a.drop_last(), b, le));
            }
        }
    }
}

/// Two parts that are put in order and then woven are in order.
proof fn lemma_sorted_woven<A>(a: Seq<A>, b: Seq<A>, le: spec_fn(A, A) -> bool)
    requires
        is_order(le),
    ensures
        sorted(a + b, le) == woven(sorted(a, le), sorted(b, le), le),
    decreases b.len(),
{
    if b.len() == 0 {
        assert(a + b =~= a);
    } else {
        let c = b.drop_last();
        lemma_sorted_woven(a, c, le);
        assert((a + b).drop_last() =~= a + c);
        assert((a + b).last() == b.last());
        lemma_woven_insert(sorted(a, le), sorted(c, le), b.last(), le);
    }
}

fn weave<T: Ordered>(a: Vec<T>, b: Vec<T>) -> (r: Vec<T>)
    ensures
        said_of(r@) == woven(said_of(a@), said_of(b@), row_order::<T>()),
{
    let ghost le = row_order::<T>();
    let ghost want = woven(said_of(a@), said_of(b@), le);
    let mut left = a;
    let mut right = b;
    let mut tail: Vec<T> = Vec::new();
    assert(want =~= woven(said_of(left@), said_of(right@), le) + said_of(tail@).reverse());
    while left.len() > 0 && right.len() > 0
        invariant
            le == row_order::<T>(),
            want == woven(said_of(left@), said_of(right@), le) + said_of(tail@).reverse(),
        decreases left.len() + right.len(),
    {
        let ghost x = said_of(left@);
        let ghost y = said_of(right@);
        let ghost t = said_of(tail@);
        assert(x.last() == left@.last().said());
        assert(y.last() == right@.last().said());
        let first = left[left.len() - 1].in_order(&right[right.len() - 1]);
        if first {
            if let Some(row) = right.pop() {
                let ghost said = row.said();
                tail.push(row);
                proof {
                    assert(said_of(right@) =~= y.drop_last());
                    assert(said_of(tail@) =~= t.push(said));
                    assert(want =~= woven(x, y.drop_last(), le) + t.push(said).reverse());
                }
            }
        } else {
            if let Some(row) = left.pop() {
                let ghost said = row.said();
                tail.push(row);
                proof {
                    assert(said_of(left@) =~= x.drop_last());
                    assert(said_of(tail@) =~= t.push(said));
                    assert(want =~= woven(x.drop_last(), y, le) + t.push(said).reverse());
                }
            }
        }
    }
    let mut out = if right.len() == 0 {
        left
    } else {
        right
    };
    let ghost head = said_of(out@);
    let mut tail = reversed(tail);
    out.append(&mut tail);
    assert(said_of(out@) =~= want);
    out
}

/// The rows of `v` in the order of their kind.
pub fn sorted_rows<T: Ordered>(v: Vec<T>) -> (r: Vec<T>)
    ensures
        said_of(r@) == sorted(said_of(v@), row_order::<T>()),
    decreases v.len(),
{
    let ghost all = said_of(v@);
    let ghost le = row_order::<T>();
    if v.len() < 2 {
        proof {
            if all.len() == 1 {
                assert(sorted(all.drop_last(), le).len() == 0);
                assert(sorted(all, le) =~= all);
            }
        }
        return v;
    }
    let mut a = v;
    let mid = a.len() / 2;
    let b = a.split_off(mid);
    proof {
        law_rows_can_be_ordered::<T>();
        assert(said_of(a@) + said_of(b@) =~= all);
        lemma_sorted_woven(said_of(a@), said_of(b@), le);
    }
    weave(sorted_rows(a), sorted_rows(b))
}

/// Cuts `v` down to its first `limit` rows.
pub fn limit_rows<T: Row>(v: &mut Vec<T>, limit: usize)
    ensures
        said_of(final(v)@) == first_of(said_of(old(v)@), limit as nat),
{
    if v.len() > limit {
        v.truncate(limit);
        assert(said_of(v@) =~= said_of(old(v)@).take(limit as int));
    }
}

} // verus!
