//! Grouping sessions by business date.

use vstd::prelude::*;

use crate::order::{lemma_lex_irreflexive, lemma_lex_total, lemma_lex_transitive, lex_lt, str_eq, str_lt};
use crate::schedule::Session;

verus! {

/// The texts held by a sequence of `String`s.
pub open spec fn strs(v: Seq<String>) -> Seq<Seq<char>> {
    v.map_values(|s: String| s@)
}

/// The local showtimes of the sessions on business date `d`, in input order.
pub open spec fn times_on(s: Seq<Session>, d: Seq<char>) -> Seq<Seq<char>>
    decreases s.len(),
{
    if s.len() == 0 {
        Seq::empty()
    } else if s.last().business_date_clt@ == d {
        times_on(s.drop_last(), d).push(s.last().show_time_clt@)
    } else {
        times_on(s.drop_last(), d)
    }
}

/// Some session has business date `d`.
pub open spec fn has_date(s: Seq<Session>, d: Seq<char>) -> bool {
    exists|k: int| 0 <= k < s.len() && (#[trigger] s[k]).business_date_clt@ == d
}

/// The texts are in ascending order (equal texts allowed side by side).
pub open spec fn sorted_texts(t: Seq<Seq<char>>) -> bool {
    forall|i: int, j: int| 0 <= i < j < t.len() ==> !lex_lt(#[trigger] t[j], #[trigger] t[i])
}

/// The texts are in strictly ascending order.
pub open spec fn strictly_sorted_texts(t: Seq<Seq<char>>) -> bool {
    forall|i: int, j: int| 0 <= i < j < t.len() ==> lex_lt(#[trigger] t[i], #[trigger] t[j])
}

/// The keys of a grouping, in order.
pub open spec fn group_keys(g: Seq<(String, Vec<String>)>) -> Seq<Seq<char>> {
    g.map_values(|e: (String, Vec<String>)| e.0@)
}

/// `g` groups the sessions `s` by business date: one entry per distinct date,
/// dates ascending, and each date's local showtimes are exactly those of the
/// sessions on that date, sorted ascending.
pub open spec fn is_grouping(s: Seq<Session>, g: Seq<(String, Vec<String>)>) -> bool {
    &&& strictly_sorted_texts(group_keys(g))
    &&& forall|i: int| 0 <= i < g.len() ==> has_date(s, #[trigger] g[i].0@)
    &&& forall|k: int| 0 <= k < s.len() ==> group_keys(g).contains(#[trigger] s[k].business_date_clt@)
    &&& forall|i: int| 0 <= i < g.len() ==> {
        &&& sorted_texts(strs(#[trigger] g[i].1@))
        &&& strs(g[i].1@).to_multiset() == times_on(s, g[i].0@).to_multiset()
    }
}

/// Inserting an element anywhere adds it to the multiset of elements.
pub proof fn lemma_insert_to_multiset<A>(s: Seq<A>, i: int, x: A)
    requires
        0 <= i <= s.len(),
    ensures
        s.insert(i, x).to_multiset() =~= s.to_multiset().insert(x),
{
    broadcast use vstd::seq_lib::group_to_multiset_ensures;
    let t = s.insert(i, x);
    assert(t.remove(i) =~= s);
    assert(t[i] == x);
    assert(t.to_multiset().count(x) > 0) by {
        assert(t.contains(x));
    }
    assert(t.to_multiset().remove(x) =~= s.to_multiset());
}

/// Inserting `x` before the first element greater than it keeps a sequence sorted.
proof fn lemma_sorted_insert(t: Seq<Seq<char>>, q: int, x: Seq<char>)
    requires
        sorted_texts(t),
        0 <= q <= t.len(),
        forall|i: int| 0 <= i < q ==> !lex_lt(x, #[trigger] t[i]),
        q < t.len() ==> lex_lt(x, t[q]),
    ensures
        sorted_texts(t.insert(q, x)),
{
    let u = t.insert(q, x);
    assert forall|i: int| q <= i < t.len() implies !lex_lt(#[trigger] t[i], x) by {
        if lex_lt(t[i], x) {
            lemma_lex_transitive(t[i], x, t[q]);
            if i == q {
                lemma_lex_irreflexive(t[q]);
            }
        }
    }
    assert forall|i: int, j: int| 0 <= i < j < u.len() implies !lex_lt(#[trigger] u[j], #[trigger] u[i]) by {
        if j < q {
            assert(u[i] == t[i] && u[j] == t[j]);
        } else if j == q {
            assert(u[i] == t[i]);
        } else if i == q {
            assert(u[j] == t[j - 1]);
            lemma_lex_total(u[j], x);
        } else if i < q {
            assert(u[i] == t[i] && u[j] == t[j - 1]);
        } else {
            assert(u[i] == t[i - 1] && u[j] == t[j - 1]);
        }
    }
}

/// Inserting `x` between the elements below it and those above it keeps a
/// sequence strictly sorted.
proof fn lemma_strictly_sorted_insert(t: Seq<Seq<char>>, p: int, x: Seq<char>)
    requires
        strictly_sorted_texts(t),
        0 <= p <= t.len(),
        forall|i: int| 0 <= i < p ==> lex_lt(#[trigger] t[i], x),
        p < t.len() ==> lex_lt(x, t[p]),
    ensures
        strictly_sorted_texts(t.insert(p, x)),
{
    let u = t.insert(p, x);
    assert forall|i: int| p <= i < t.len() implies lex_lt(x, #[trigger] t[i]) by {
        if i > p {
            lemma_lex_transitive(x, t[p], t[i]);
        }
    }
    assert forall|i: int, j: int| 0 <= i < j < u.len() implies lex_lt(#[trigger] u[i], #[trigger] u[j]) by {
        if j < p {
            assert(u[i] == t[i] && u[j] == t[j]);
        } else if j == p {
            assert(u[i] == t[i]);
        } else if i == p {
            assert(u[j] == t[j - 1]);
        } else if i < p {
            assert(u[i] == t[i] && u[j] == t[j - 1]);
            lemma_lex_transitive(t[i], x, t[j - 1]);
        } else {
            assert(u[i] == t[i - 1] && u[j] == t[j - 1]);
        }
    }
}

/// The number of showtimes held by all groups together.
pub open spec fn total_times(g: Seq<(String, Vec<String>)>) -> nat
    decreases g.len(),
{
    if g.len() == 0 {
        0
    } else {
        total_times(g.drop_last()) + g.last().1@.len()
    }
}

/// The number of sessions on each of the given dates, added up.
spec fn count_on(keys: Seq<Seq<char>>, s: Seq<Session>) -> nat
    decreases keys.len(),
{
    if keys.len() == 0 {
        0
    } else {
        count_on(keys.drop_last(), s) + times_on(s, keys.last()).len()
    }
}

/// How many of the keys equal `d`.
spec fn occurrences(keys: Seq<Seq<char>>, d: Seq<char>) -> nat
    decreases keys.len(),
{
    if keys.len() == 0 {
        0
    } else {
        occurrences(keys.drop_last(), d) + if keys.last() == d { 1nat } else { 0nat }
    }
}

proof fn lemma_count_on_step(keys: Seq<Seq<char>>, s: Seq<Session>)
    requires
        s.len() > 0,
    ensures
        count_on(keys, s) == count_on(keys, s.drop_last()) + occurrences(keys, s.last().business_date_clt@),
    decreases keys.len(),
{
    if keys.len() > 0 {
        lemma_count_on_step(keys.drop_last(), s);
    }
}

proof fn lemma_count_on_empty(keys: Seq<Seq<char>>, s: Seq<Session>)
    requires
        s.len() == 0,
    ensures
        count_on(keys, s) == 0,
    decreases keys.len(),
{
    if keys.len() > 0 {
        lemma_count_on_empty(keys.drop_last(), s);
    }
}

proof fn lemma_occurs_once(keys: Seq<Seq<char>>, d: Seq<char>)
    requires
        strictly_sorted_texts(keys),
        keys.contains(d),
    ensures
        occurrences(keys, d) == 1,
    decreases keys.len(),
{
    let init = keys.drop_last();
    assert(strictly_sorted_texts(init)) by {
        assert forall|i: int, j: int| 0 <= i < j < init.len() implies lex_lt(#[trigger] init[i], #[trigger] init[j]) by {
            assert(init[i] == keys[i] && init[j] == keys[j]);
        }
    }
    if keys.last() == d {
        assert(!init.contains(d)) by {
            if init.contains(d) {
                let i = choose|i: int| 0 <= i < init.len() && init[i] == d;
                assert(lex_lt(keys[i], keys[keys.len() - 1]));
                lemma_lex_irreflexive(d);
            }
        }
        lemma_occurs_never(init, d);
    } else {
        let i = choose|i: int| 0 <= i < keys.len() && keys[i] == d;
        assert(init[i] == d);
        lemma_occurs_once(init, d);
    }
}

proof fn lemma_occurs_never(keys: Seq<Seq<char>>, d: Seq<char>)
    requires
        !keys.contains(d),
    ensures
        occurrences(keys, d) == 0,
    decreases keys.len(),
{
    if keys.len() > 0 {
        assert(!keys.drop_last().contains(d)) by {
            if keys.drop_last().contains(d) {
                let i = choose|i: int| 0 <= i < keys.drop_last().len() && keys.drop_last()[i] == d;
                assert(keys[i] == d);
            }
        }
        lemma_occurs_never(keys.drop_last(), d);
        assert(keys[keys.len() - 1] != d);
    }
}

/// Distinct keys that cover every session's date count every session once.
proof fn lemma_count_on_covers(keys: Seq<Seq<char>>, s: Seq<Session>)
    requires
        strictly_sorted_texts(keys),
        forall|k: int| 0 <= k < s.len() ==> keys.contains(#[trigger] s[k].business_date_clt@),
    ensures
        count_on(keys, s) == s.len(),
    decreases s.len(),
{
    if s.len() == 0 {
        lemma_count_on_empty(keys, s);
    } else {
        let init = s.drop_last();
        assert forall|k: int| 0 <= k < init.len() implies keys.contains(#[trigger] init[k].business_date_clt@) by {
            assert(init[k] == s[k]);
        }
        lemma_count_on_covers(keys, init);
        lemma_count_on_step(keys, s);
        assert(keys.contains(s[s.len() - 1].business_date_clt@));
        lemma_occurs_once(keys, s.last().business_date_clt@);
    }
}

proof fn lemma_total_is_count(s: Seq<Session>, g: Seq<(String, Vec<String>)>)
    requires
        forall|i: int| 0 <= i < g.len() ==>
            strs((#[trigger] g[i]).1@).to_multiset() == times_on(s, g[i].0@).to_multiset(),
    ensures
        total_times(g) == count_on(group_keys(g), s),
    decreases g.len(),
{
    broadcast use vstd::seq_lib::group_to_multiset_ensures;
    if g.len() > 0 {
        let init = g.drop_last();
        assert forall|i: int| 0 <= i < init.len() implies
            strs((#[trigger] init[i]).1@).to_multiset() == times_on(s, init[i].0@).to_multiset() by {
            assert(init[i] == g[i]);
        }
        lemma_total_is_count(s, init);
        assert(group_keys(g).drop_last() =~= group_keys(init));
        let last = g[g.len() - 1];
        assert(strs(last.1@).to_multiset() == times_on(s, last.0@).to_multiset());
        assert(strs(last.1@).to_multiset().len() == strs(last.1@).len());
        assert(times_on(s, last.0@).to_multiset().len() == times_on(s, last.0@).len());
        assert(strs(last.1@).len() == last.1@.len());
    }
}

/// Grouping neither loses nor duplicates a session: the groups together hold
/// exactly as many showtimes as there are sessions.
pub proof fn lemma_grouping_partitions(s: Seq<Session>, g: Seq<(String, Vec<String>)>)
    requires
        is_grouping(s, g),
    ensures
        total_times(g) == s.len(),
{
    lemma_total_is_count(s, g);
    lemma_count_on_covers(group_keys(g), s);
}

/// Two strictly ascending sequences with the same elements are equal.
proof fn lemma_strictly_sorted_unique(a: Seq<Seq<char>>, b: Seq<Seq<char>>)
    requires
        strictly_sorted_texts(a),
        strictly_sorted_texts(b),
        forall|x: Seq<char>| a.contains(x) <==> b.contains(x),
    ensures
        a == b,
    decreases a.len(),
{
    if a.len() == 0 {
        if b.len() > 0 {
            assert(b.contains(b[0]));
        }
        assert(a =~= b);
    } else {
        assert(a.contains(a[0]));
        assert(b.len() > 0);
        assert(b.contains(b[0]));
        let j = choose|j: int| 0 <= j < b.len() && b[j] == a[0];
        let i = choose|i: int| 0 <= i < a.len() && a[i] == b[0];
        if j > 0 {
            assert(lex_lt(b[0], b[j]));
            if i > 0 {
                assert(lex_lt(a[0], a[i]));
                lemma_lex_total(a[0], b[0]);
            } else {
                lemma_lex_irreflexive(b[0]);
            }
        }
        assert(a[0] == b[0]);
        let a1 = a.drop_first();
        let b1 = b.drop_first();
        assert(strictly_sorted_texts(a1)) by {
            assert forall|p: int, q: int| 0 <= p < q < a1.len() implies lex_lt(#[trigger] a1[p], #[trigger] a1[q]) by {
                assert(a1[p] == a[p + 1] && a1[q] == a[q + 1]);
            }
        }
        assert(strictly_sorted_texts(b1)) by {
            assert forall|p: int, q: int| 0 <= p < q < b1.len() implies lex_lt(#[trigger] b1[p], #[trigger] b1[q]) by {
                assert(b1[p] == b[p + 1] && b1[q] == b[q + 1]);
            }
        }
        assert forall|x: Seq<char>| a1.contains(x) <==> b1.contains(x) by {
            if a1.contains(x) {
                let p = choose|p: int| 0 <= p < a1.len() && a1[p] == x;
                assert(a[p + 1] == x);
                assert(lex_lt(a[0], x));
                lemma_lex_irreflexive(x);
                assert(b.contains(x));
                let q = choose|q: int| 0 <= q < b.len() && b[q] == x;
                assert(q != 0);
                assert(b1[q - 1] == x);
            }
            if b1.contains(x) {
                let p = choose|p: int| 0 <= p < b1.len() && b1[p] == x;
                assert(b[p + 1] == x);
                assert(lex_lt(b[0], x));
                lemma_lex_irreflexive(x);
                assert(a.contains(x));
                let q = choose|q: int| 0 <= q < a.len() && a[q] == x;
                assert(q != 0);
                assert(a1[q - 1] == x);
            }
        }
        lemma_strictly_sorted_unique(a1, b1);
        assert(a =~= seq![a[0]] + a1);
        assert(b =~= seq![b[0]] + b1);
    }
}

/// The order "not after" on texts.
pub open spec fn text_leq() -> spec_fn(Seq<char>, Seq<char>) -> bool {
    |x: Seq<char>, y: Seq<char>| !lex_lt(y, x)
}

proof fn lemma_text_leq_total()
    ensures
        vstd::relations::total_ordering(text_leq()),
{
    let r = text_leq();
    assert forall|x: Seq<char>| #[trigger] r(x, x) by {
        lemma_lex_irreflexive(x);
    }
    assert forall|x: Seq<char>, y: Seq<char>| #[trigger] r(x, y) && #[trigger] r(y, x) implies x == y by {
        lemma_lex_total(x, y);
    }
    assert forall|x: Seq<char>, y: Seq<char>, z: Seq<char>| #[trigger] r(x, y) && #[trigger] r(y, z) implies r(x, z) by {
        if lex_lt(z, x) {
            lemma_lex_total(x, y);
            lemma_lex_total(y, z);
            if lex_lt(x, y) {
                lemma_lex_transitive(z, x, y);
            } else if x == y {
            } else {
                assert(lex_lt(y, x));
            }
        }
    }
    assert forall|x: Seq<char>, y: Seq<char>| #[trigger] r(x, y) || #[trigger] r(y, x) by {
        lemma_lex_total(x, y);
    }
}

/// The grouping of sessions by date is unique: any two groupings of the same
/// sessions hold the same dates in the same order and, on each date, the same
/// showtimes in the same order.
pub proof fn lemma_grouping_unique(s: Seq<Session>, g1: Seq<(String, Vec<String>)>, g2: Seq<(String, Vec<String>)>)
    requires
        is_grouping(s, g1),
        is_grouping(s, g2),
    ensures
        group_keys(g1) == group_keys(g2),
        forall|i: int| 0 <= i < g1.len() ==> strs((#[trigger] g1[i]).1@) == strs(g2[i].1@),
{
    let k1 = group_keys(g1);
    let k2 = group_keys(g2);
    assert forall|x: Seq<char>| k1.contains(x) <==> k2.contains(x) by {
        if k1.contains(x) {
            let i = choose|i: int| 0 <= i < k1.len() && k1[i] == x;
            assert(has_date(s, g1[i].0@));
            let k = choose|k: int| 0 <= k < s.len() && (#[trigger] s[k]).business_date_clt@ == g1[i].0@;
            assert(k2.contains(s[k].business_date_clt@));
        }
        if k2.contains(x) {
            let i = choose|i: int| 0 <= i < k2.len() && k2[i] == x;
            assert(has_date(s, g2[i].0@));
            let k = choose|k: int| 0 <= k < s.len() && (#[trigger] s[k]).business_date_clt@ == g2[i].0@;
            assert(k1.contains(s[k].business_date_clt@));
        }
    }
    lemma_strictly_sorted_unique(k1, k2);
    lemma_text_leq_total();
    assert forall|i: int| 0 <= i < g1.len() implies strs((#[trigger] g1[i]).1@) == strs(g2[i].1@) by {
        assert(k1[i] == k2[i]);
        let t1 = strs(g1[i].1@);
        let t2 = strs(g2[i].1@);
        assert(sorted_texts(t1) && sorted_texts(t2));
        assert(vstd::relations::sorted_by(t1, text_leq()));
        assert(vstd::relations::sorted_by(t2, text_leq()));
        vstd::seq_lib::lemma_sorted_unique(t1, t2, text_leq());
    }
}

/// The (business date, local showtime) pairs of the sessions, in order.
pub open spec fn date_time_pairs(s: Seq<Session>) -> Seq<(Seq<char>, Seq<char>)> {
    s.map_values(|x: Session| (x.business_date_clt@, x.show_time_clt@))
}

/// A showtime occurs on date `d` as often as the pair (`d`, showtime) occurs.
proof fn lemma_times_on_count(s: Seq<Session>, d: Seq<char>, t: Seq<char>)
    ensures
        times_on(s, d).to_multiset().count(t) == date_time_pairs(s).to_multiset().count((d, t)),
    decreases s.len(),
{
    broadcast use vstd::seq_lib::group_to_multiset_ensures;
    broadcast use vstd::multiset::group_multiset_axioms;
    if s.len() == 0 {
        assert(date_time_pairs(s) =~= Seq::<(Seq<char>, Seq<char>)>::empty());
        assert(times_on(s, d).to_multiset() =~= vstd::multiset::Multiset::empty());
        assert(date_time_pairs(s).to_multiset() =~= vstd::multiset::Multiset::empty());
    } else {
        let init = s.drop_last();
        lemma_times_on_count(init, d, t);
        let x = s.last();
        assert(date_time_pairs(s) =~= date_time_pairs(init).push((x.business_date_clt@, x.show_time_clt@)));
    }
}

/// Some session has date `d` exactly when some pair has date `d`.
proof fn lemma_has_date_pairs(s: Seq<Session>, d: Seq<char>)
    ensures
        has_date(s, d) <==> exists|t: Seq<char>| date_time_pairs(s).to_multiset().count((d, t)) > 0,
{
    broadcast use vstd::seq_lib::group_to_multiset_ensures;
    let p = date_time_pairs(s);
    if has_date(s, d) {
        let k = choose|k: int| 0 <= k < s.len() && (#[trigger] s[k]).business_date_clt@ == d;
        assert(p[k] == (d, s[k].show_time_clt@));
        assert(p.contains((d, s[k].show_time_clt@)));
        assert(p.to_multiset().count((d, s[k].show_time_clt@)) > 0);
    }
    if exists|t: Seq<char>| p.to_multiset().count((d, t)) > 0 {
        let t = choose|t: Seq<char>| p.to_multiset().count((d, t)) > 0;
        assert(p.contains((d, t)));
        let k = choose|k: int| 0 <= k < p.len() && p[k] == (d, t);
        assert(s[k].business_date_clt@ == d);
    }
}

/// A grouping of some sessions groups any sessions with the same
/// (date, showtime) pairs.
proof fn lemma_grouping_transfers(s1: Seq<Session>, s2: Seq<Session>, g: Seq<(String, Vec<String>)>)
    requires
        is_grouping(s1, g),
        date_time_pairs(s1).to_multiset() == date_time_pairs(s2).to_multiset(),
    ensures
        is_grouping(s2, g),
{
    assert forall|d: Seq<char>| has_date(s1, d) <==> has_date(s2, d) by {
        lemma_has_date_pairs(s1, d);
        lemma_has_date_pairs(s2, d);
    }
    assert forall|i: int| 0 <= i < g.len() implies has_date(s2, #[trigger] g[i].0@) by {
        assert(has_date(s1, g[i].0@));
    }
    assert forall|k: int| 0 <= k < s2.len() implies group_keys(g).contains(#[trigger] s2[k].business_date_clt@) by {
        let d = s2[k].business_date_clt@;
        assert(has_date(s2, d));
        assert(has_date(s1, d));
        let k1 = choose|k1: int| 0 <= k1 < s1.len() && (#[trigger] s1[k1]).business_date_clt@ == d;
        assert(group_keys(g).contains(s1[k1].business_date_clt@));
    }
    assert forall|i: int| 0 <= i < g.len() implies {
        &&& sorted_texts(strs(#[trigger] g[i].1@))
        &&& strs(g[i].1@).to_multiset() == times_on(s2, g[i].0@).to_multiset()
    } by {
        let d = g[i].0@;
        assert forall|t: Seq<char>| times_on(s1, d).to_multiset().count(t) == times_on(s2, d).to_multiset().count(t) by {
            lemma_times_on_count(s1, d, t);
            lemma_times_on_count(s2, d, t);
        }
        assert(times_on(s1, d).to_multiset() =~= times_on(s2, d).to_multiset());
    }
}

/// Grouping depends only on the sessions' (date, showtime) pairs taken as a
/// multiset: reordering the sessions, or changing their other fields, gives
/// the same dates and the same showtimes on each date.
pub proof fn lemma_grouping_order_free(
    s1: Seq<Session>,
    s2: Seq<Session>,
    g1: Seq<(String, Vec<String>)>,
    g2: Seq<(String, Vec<String>)>,
)
    requires
        is_grouping(s1, g1),
        is_grouping(s2, g2),
        date_time_pairs(s1).to_multiset() == date_time_pairs(s2).to_multiset(),
    ensures
        group_keys(g1) == group_keys(g2),
        forall|i: int| 0 <= i < g1.len() ==> strs((#[trigger] g1[i]).1@) == strs(g2[i].1@),
{
    lemma_grouping_transfers(s1, s2, g1);
    lemma_grouping_unique(s2, g1, g2);
}

/// The distinct business dates of the sessions, ascending: each date is put
/// into its place in a sorted vector of distinct texts, and a date already
/// there is not added again.
fn distinct_dates(sessions: &[Session]) -> (dates: Vec<String>)
    ensures
        strictly_sorted_texts(strs(dates@)),
        forall|i: int| 0 <= i < dates@.len() ==> has_date(sessions@, #[trigger] dates@[i]@),
        forall|k: int| 0 <= k < sessions@.len() ==> strs(dates@).contains(#[trigger] sessions@[k].business_date_clt@),
{
    let mut dates: Vec<String> = Vec::new();
    let mut k: usize = 0;
    while k < sessions.len()
        invariant
            k <= sessions@.len(),
            strictly_sorted_texts(strs(dates@)),
            forall|i: int| 0 <= i < dates@.len() ==> has_date(sessions@, #[trigger] dates@[i]@),
            forall|j: int| 0 <= j < k ==> strs(dates@).contains(#[trigger] sessions@[j].business_date_clt@),
        decreases sessions@.len() - k,
    {
        let d = &sessions[k].business_date_clt;
        let mut p: usize = 0;
        while p < dates.len() && str_lt(dates[p].as_str(), d.as_str())
            invariant
                p <= dates@.len(),
                forall|i: int| 0 <= i < p ==> lex_lt(#[trigger] strs(dates@)[i], d@),
            decreases dates@.len() - p,
        {
            p = p + 1;
        }
        if p < dates.len() && str_eq(dates[p].as_str(), d.as_str()) {
            assert(strs(dates@)[p as int] == sessions@[k as int].business_date_clt@);
        } else {
            let ghost old_dates = dates@;
            proof {
                if p < dates@.len() {
                    lemma_lex_total(d@, dates@[p as int]@);
                    assert(strs(dates@)[p as int] == dates@[p as int]@);
                }
                lemma_strictly_sorted_insert(strs(dates@), p as int, d@);
            }
            dates.insert(p, d.clone());
            proof {
                assert(strs(dates@) =~= strs(old_dates).insert(p as int, d@));
                assert forall|i: int| 0 <= i < dates@.len() implies has_date(sessions@, #[trigger] dates@[i]@) by {
                    if i < p {
                        assert(dates@[i] == old_dates[i]);
                    } else if i == p {
                        assert(sessions@[k as int].business_date_clt@ == dates@[i]@);
                    } else {
                        assert(dates@[i] == old_dates[i - 1]);
                    }
                }
                assert forall|j: int| 0 <= j < k + 1 implies strs(dates@).contains(#[trigger] sessions@[j].business_date_clt@) by {
                    if j < k {
                        let i = choose|i: int| 0 <= i < strs(old_dates).len() && strs(old_dates)[i] == sessions@[j].business_date_clt@;
                        if i < p {
                            assert(strs(dates@)[i] == strs(old_dates)[i]);
                        } else {
                            assert(strs(dates@)[i + 1] == strs(old_dates)[i]);
                        }
                    } else {
                        assert(strs(dates@)[p as int] == d@);
                    }
                }
            }
        }
        k = k + 1;
    }
    dates
}

/// The local showtimes of the sessions on business date `d`, ascending.
fn sorted_times_on(sessions: &[Session], d: &String) -> (times: Vec<String>)
    ensures
        sorted_texts(strs(times@)),
        strs(times@).to_multiset() == times_on(sessions@, d@).to_multiset(),
{
    let mut times: Vec<String> = Vec::new();
    let mut k: usize = 0;
    assert(strs(times@) =~= times_on(sessions@.take(0), d@));
    while k < sessions.len()
        invariant
            k <= sessions@.len(),
            sorted_texts(strs(times@)),
            strs(times@).to_multiset() == times_on(sessions@.take(k as int), d@).to_multiset(),
        decreases sessions@.len() - k,
    {
        proof {
            assert(sessions@.take(k + 1).drop_last() =~= sessions@.take(k as int));
            assert(sessions@.take(k + 1).last() == sessions@[k as int]);
        }
        if str_eq(sessions[k].business_date_clt.as_str(), d.as_str()) {
            let t = &sessions[k].show_time_clt;
            let mut q: usize = 0;
            while q < times.len() && !str_lt(t.as_str(), times[q].as_str())
                invariant
                    q <= times@.len(),
                    forall|i: int| 0 <= i < q ==> !lex_lt(t@, #[trigger] strs(times@)[i]),
                decreases times@.len() - q,
            {
                q = q + 1;
            }
            let ghost old_times = times@;
            proof {
                lemma_sorted_insert(strs(times@), q as int, t@);
                lemma_insert_to_multiset(strs(times@), q as int, t@);
                broadcast use vstd::seq_lib::group_to_multiset_ensures;
            }
            times.insert(q, t.clone());
            proof {
                assert(strs(times@) =~= strs(old_times).insert(q as int, t@));
                broadcast use vstd::seq_lib::group_to_multiset_ensures;
                assert(times_on(sessions@.take(k + 1), d@) == times_on(sessions@.take(k as int), d@).push(t@));
            }
        }
        k = k + 1;
    }
    proof {
        assert(sessions@.take(sessions@.len() as int) =~= sessions@);
    }
    times
}

/// Group sessions by their business date (ascending), with each day's showtimes
/// (the raw local timestamp strings) sorted ascending.
pub fn group_by_date(sessions: &[Session]) -> (groups: Vec<(String, Vec<String>)>)
    ensures
        is_grouping(sessions@, groups@),
{
    let dates = distinct_dates(sessions);
    let mut groups: Vec<(String, Vec<String>)> = Vec::new();
    let mut i: usize = 0;
    while i < dates.len()
        invariant
            i <= dates@.len(),
            groups@.len() == i,
            strictly_sorted_texts(strs(dates@)),
            forall|j: int| 0 <= j < dates@.len() ==> has_date(sessions@, #[trigger] dates@[j]@),
            forall|k: int| 0 <= k < sessions@.len() ==> strs(dates@).contains(#[trigger] sessions@[k].business_date_clt@),
            forall|j: int| 0 <= j < i ==> (#[trigger] groups@[j]).0@ == dates@[j]@,
            forall|j: int| 0 <= j < i ==> {
                &&& sorted_texts(strs(#[trigger] groups@[j].1@))
                &&& strs(groups@[j].1@).to_multiset() == times_on(sessions@, groups@[j].0@).to_multiset()
            },
        decreases dates@.len() - i,
    {
        let times = sorted_times_on(sessions, &dates[i]);
        groups.push((dates[i].clone(), times));
        i = i + 1;
    }
    proof {
        assert(group_keys(groups@) =~= strs(dates@));
    }
    groups
}

} // verus!
