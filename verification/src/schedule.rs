//! Films, sessions and the per-film schedules built from them.

use vstd::prelude::*;

use crate::clock::{earlier, parse_utc, utc_instant, UtcTime};
use crate::grouping::{group_by_date, is_grouping};
use crate::order::str_eq;

verus! {

/// The cinema id of Alamo Drafthouse DTLA.
pub const DTLA_CINEMA_ID: &'static str = "1701";

/// A film (presentation) from the market feed: what is needed to render its
/// card header. `slug` is the presentation-level slug, the key sessions join on.
#[derive(Debug, Clone)]
pub struct Film {
    pub slug: String,
    pub title: String,
    pub hero_uri: String,
    /// True when this presentation is an `/event/` page rather than a `/show/`.
    pub is_event: bool,
}

/// One showtime session from the market feed. `presentation_slug` joins it to
/// the `Film` whose showtime it is.
#[derive(Debug, Clone)]
pub struct Session {
    pub presentation_slug: String,
    pub cinema_id: String,
    pub show_time_clt: String,
    pub show_time_utc: String,
    pub business_date_clt: String,
}

/// A copy of a session, field by field.
pub(crate) fn copy_session(s: &Session) -> (r: Session)
    ensures
        r == *s,
{
    Session {
        presentation_slug: s.presentation_slug.clone(),
        cinema_id: s.cinema_id.clone(),
        show_time_clt: s.show_time_clt.clone(),
        show_time_utc: s.show_time_utc.clone(),
        business_date_clt: s.business_date_clt.clone(),
    }
}

/// The public Drafthouse address of a film's page, scoped to the DTLA cinema.
pub open spec fn film_url(f: Film) -> Seq<char> {
    if f.is_event {
        "https://drafthouse.com/event/"@ + f.slug@ + "?cinemaId="@ + DTLA_CINEMA_ID@
    } else {
        "https://drafthouse.com/los-angeles/show/"@ + f.slug@ + "?cinemaId="@ + DTLA_CINEMA_ID@
    }
}

/// The public Drafthouse URL for a film, scoped to the DTLA cinema. Event pages
/// live under `/event/`; regular shows under `/los-angeles/show/`.
pub fn presentation_url(film: &Film) -> (url: String)
    ensures
        url@ == film_url(*film),
{
    let mut url = if film.is_event {
        String::from_str("https://drafthouse.com/event/")
    } else {
        String::from_str("https://drafthouse.com/los-angeles/show/")
    };
    url.append(film.slug.as_str());
    url.append("?cinemaId=");
    url.append(DTLA_CINEMA_ID);
    url
}

/// The session is at DTLA and its UTC showtime parses and is strictly after `now`.
pub open spec fn dtla_future(s: Session, now: UtcTime) -> bool {
    &&& s.cinema_id@ == DTLA_CINEMA_ID@
    &&& utc_instant(s.show_time_utc@) matches Some(t)
    &&& earlier(now, t)
}

/// True if the session is at DTLA and its UTC showtime is strictly after `now`.
/// A session whose UTC timestamp can't be parsed is treated as not-future (dropped).
pub fn is_dtla_future(session: &Session, now: UtcTime) -> (r: bool)
    ensures
        r == dtla_future(*session, now),
{
    if !str_eq(session.cinema_id.as_str(), DTLA_CINEMA_ID) {
        return false;
    }
    match parse_utc(session.show_time_utc.as_str()) {
        Some(t) => now.is_before(&t),
        None => false,
    }
}

/// The sessions at DTLA that are still to come at `now`, in input order.
pub open spec fn future_sessions(s: Seq<Session>, now: UtcTime) -> Seq<Session>
    decreases s.len(),
{
    if s.len() == 0 {
        Seq::empty()
    } else if dtla_future(s.last(), now) {
        future_sessions(s.drop_last(), now).push(s.last())
    } else {
        future_sessions(s.drop_last(), now)
    }
}

/// The future sessions are exactly the feed's sessions at DTLA whose UTC
/// showtime parses and is after `now`, in feed order: the sessions filtered
/// by that test, each such session among them and every one of them passing
/// it.
pub proof fn lemma_future_sessions_are_the_filter(s: Seq<Session>, now: UtcTime)
    ensures
        future_sessions(s, now) == s.filter(|x: Session| dtla_future(x, now)),
        forall|i: int| 0 <= i < s.len() && dtla_future(s[i], now) ==>
            #[trigger] future_sessions(s, now).contains(s[i]),
        forall|i: int| 0 <= i < future_sessions(s, now).len() ==>
            {
                let x = #[trigger] future_sessions(s, now)[i];
                &&& x.cinema_id@ == DTLA_CINEMA_ID@
                &&& utc_instant(x.show_time_utc@) matches Some(t)
                &&& earlier(now, t)
            },
    decreases s.len(),
{
    reveal(Seq::filter);
    let pred = |x: Session| dtla_future(x, now);
    if s.len() > 0 {
        lemma_future_sessions_are_the_filter(s.drop_last(), now);
    }
    assert(future_sessions(s, now) == s.filter(pred));
    assert forall|i: int| 0 <= i < s.len() && dtla_future(s[i], now) implies
        #[trigger] future_sessions(s, now).contains(s[i]) by {
        s.lemma_filter_contains(pred, i);
    }
    assert forall|i: int| 0 <= i < future_sessions(s, now).len() implies
        {
            let x = #[trigger] future_sessions(s, now)[i];
            &&& x.cinema_id@ == DTLA_CINEMA_ID@
            &&& utc_instant(x.show_time_utc@) matches Some(t)
            &&& earlier(now, t)
        } by {
        s.lemma_filter_pred(pred, i);
    }
}

/// `t` is the earliest UTC showtime among the sessions `s`: some session
/// starts at `t` and none starts before it.
pub open spec fn is_earliest(s: Seq<Session>, t: UtcTime) -> bool {
    &&& exists|k: int| 0 <= k < s.len() && utc_instant((#[trigger] s[k]).show_time_utc@) == Some(t)
    &&& forall|k: int| 0 <= k < s.len() ==> (utc_instant((#[trigger] s[k]).show_time_utc@) matches Some(u) ==> !earlier(u, t))
}

/// A film paired with its DTLA showtimes, grouped by date and ready to render.
#[derive(Debug, Clone)]
pub struct FilmSchedule {
    pub film: Film,
    /// (business date, sorted local showtime strings), dates ascending.
    pub dates: Vec<(String, Vec<String>)>,
    /// Earliest future DTLA showtime, used to order films.
    pub earliest: UtcTime,
}

/// `fs` is the schedule of `film` built from its sessions `s` at `now`: the
/// film itself, its future DTLA sessions grouped by date, and the earliest of
/// their showtimes.
pub open spec fn is_schedule_for(film: Film, s: Seq<Session>, now: UtcTime, fs: FilmSchedule) -> bool {
    &&& fs.film == film
    &&& is_grouping(future_sessions(s, now), fs.dates@)
    &&& is_earliest(future_sessions(s, now), fs.earliest)
}

/// Every session kept as future has a UTC showtime that parses.
proof fn lemma_future_sessions_parse(s: Seq<Session>, now: UtcTime)
    ensures
        forall|k: int| 0 <= k < future_sessions(s, now).len() ==>
            dtla_future(#[trigger] future_sessions(s, now)[k], now),
    decreases s.len(),
{
    if s.len() > 0 {
        lemma_future_sessions_parse(s.drop_last(), now);
        let f = future_sessions(s.drop_last(), now);
        assert forall|k: int| 0 <= k < future_sessions(s, now).len() implies
            dtla_future(#[trigger] future_sessions(s, now)[k], now) by {
            if dtla_future(s.last(), now) {
                assert(future_sessions(s, now) == f.push(s.last()));
                if k < f.len() {
                    assert(future_sessions(s, now)[k] == f[k]);
                }
            } else {
                assert(future_sessions(s, now) == f);
            }
        }
    }
}

/// A session that is not a future DTLA session leaves no trace: inserting it
/// anywhere among the sessions keeps the same future sessions, so the same
/// schedule (or none).
pub proof fn lemma_dropped_session_leaves_no_trace(s: Seq<Session>, i: int, x: Session, now: UtcTime)
    requires
        0 <= i <= s.len(),
        !dtla_future(x, now),
    ensures
        future_sessions(s.insert(i, x), now) == future_sessions(s, now),
        forall|film: Film, fs: FilmSchedule|
            is_schedule_for(film, s.insert(i, x), now, fs) == #[trigger] is_schedule_for(film, s, now, fs),
    decreases s.len(),
{
    let t = s.insert(i, x);
    if i == s.len() {
        assert(t.drop_last() =~= s);
        assert(t.last() == x);
    } else {
        lemma_dropped_session_leaves_no_trace(s.drop_last(), i, x, now);
        assert(t.drop_last() =~= s.drop_last().insert(i, x));
        assert(t.last() == s.last());
    }
}

/// A later `now` never adds a future session where there was none: if the
/// sessions hold a future DTLA session at `later`, they hold one at any
/// `now` not after it.
pub proof fn lemma_future_at_earlier_now(s: Seq<Session>, now: UtcTime, later: UtcTime)
    requires
        !earlier(later, now),
        future_sessions(s, later).len() > 0,
    ensures
        future_sessions(s, now).len() > 0,
    decreases s.len(),
{
    if s.len() > 0 {
        if dtla_future(s.last(), later) {
            assert(dtla_future(s.last(), now));
        } else {
            lemma_future_at_earlier_now(s.drop_last(), now, later);
            if dtla_future(s.last(), now) {
                assert(future_sessions(s, now).len() == future_sessions(s.drop_last(), now).len() + 1);
            }
        }
    }
}

/// A film's earliest showtime in its schedule is after `now`.
pub proof fn lemma_earliest_is_future(film: Film, s: Seq<Session>, now: UtcTime, fs: FilmSchedule)
    requires
        is_schedule_for(film, s, now, fs),
    ensures
        earlier(now, fs.earliest),
{
    let f = future_sessions(s, now);
    lemma_future_sessions_parse(s, now);
    let k = choose|k: int| 0 <= k < f.len() && utc_instant((#[trigger] f[k]).show_time_utc@) == Some(fs.earliest);
    assert(dtla_future(f[k], now));
}

impl FilmSchedule {
    /// Build a schedule from a film and its raw sessions, keeping only future DTLA
    /// sessions. Returns `None` if the film has no such sessions (so it is dropped).
    pub fn build(film: Film, sessions: &[Session], now: UtcTime) -> (r: Option<FilmSchedule>)
        ensures
            r is Some <==> future_sessions(sessions@, now).len() > 0,
            r matches Some(fs) ==> is_schedule_for(film, sessions@, now, fs),
    {
        let mut future: Vec<Session> = Vec::new();
        let mut k: usize = 0;
        while k < sessions.len()
            invariant
                k <= sessions@.len(),
                future@ == future_sessions(sessions@.take(k as int), now),
            decreases sessions@.len() - k,
        {
            proof {
                assert(sessions@.take(k + 1).drop_last() =~= sessions@.take(k as int));
                assert(sessions@.take(k + 1).last() == sessions@[k as int]);
            }
            if is_dtla_future(&sessions[k], now) {
                future.push(copy_session(&sessions[k]));
            }
            k = k + 1;
        }
        proof {
            assert(sessions@.take(sessions@.len() as int) =~= sessions@);
            lemma_future_sessions_parse(sessions@, now);
        }
        let ghost fut = future@;
        let mut best: Option<UtcTime> = None;
        let mut j: usize = 0;
        while j < future.len()
            invariant
                j <= future@.len(),
                future@ == fut,
                forall|i: int| 0 <= i < fut.len() ==> dtla_future(#[trigger] fut[i], now),
                j == 0 <==> best is None,
                best matches Some(b) ==> {
                    &&& exists|i: int| 0 <= i < j && utc_instant((#[trigger] fut[i]).show_time_utc@) == Some(b)
                    &&& forall|i: int| 0 <= i < j ==> (utc_instant((#[trigger] fut[i]).show_time_utc@) matches Some(u) ==> !earlier(u, b))
                },
            decreases future@.len() - j,
        {
            assert(dtla_future(fut[j as int], now));
            match parse_utc(future[j].show_time_utc.as_str()) {
                Some(t) => {
                    match best {
                        Some(b) => {
                            if t.is_before(&b) {
                                best = Some(t);
                            }
                        },
                        None => {
                            best = Some(t);
                        },
                    }
                },
                None => {},
            }
            j = j + 1;
        }
        match best {
            Some(earliest) => {
                let dates = group_by_date(future.as_slice());
                Some(FilmSchedule { film, dates, earliest })
            },
            None => None,
        }
    }
}

/// `b` is `a` stably sorted by earliest showtime, with `p` mapping each
/// position of `b` to the position in `a` it came from: `p` is one-to-one,
/// `b` is ordered soonest-first, and films with the same earliest showtime
/// keep their relative order.
pub open spec fn is_stable_sort_by_earliest(a: Seq<FilmSchedule>, b: Seq<FilmSchedule>, p: Seq<int>) -> bool {
    &&& b.len() == a.len()
    &&& p.len() == a.len()
    &&& forall|i: int| 0 <= i < b.len() ==> 0 <= #[trigger] p[i] < a.len() && b[i] == a[p[i]]
    &&& forall|i: int, j: int| 0 <= i < j < b.len() ==> #[trigger] p[i] != #[trigger] p[j]
    &&& forall|i: int, j: int| 0 <= i < j < b.len() ==> !earlier((#[trigger] b[j]).earliest, (#[trigger] b[i]).earliest)
    &&& forall|i: int, j: int| 0 <= i < j < b.len() && (#[trigger] b[i]).earliest == (#[trigger] b[j]).earliest ==> p[i] < p[j]
}

/// `b` is `a` stably sorted by earliest showtime.
pub open spec fn stably_sorted_by_earliest(a: Seq<FilmSchedule>, b: Seq<FilmSchedule>) -> bool {
    exists|p: Seq<int>| is_stable_sort_by_earliest(a, b, p)
}

/// Film `i` of `a` comes before film `j` in a stable sort by earliest showtime.
pub open spec fn sorts_before(a: Seq<FilmSchedule>, i: int, j: int) -> bool {
    earlier(a[i].earliest, a[j].earliest) || (a[i].earliest == a[j].earliest && i < j)
}

/// An injective sequence of `n` positions below `n` holds every position below `n`.
pub(crate) proof fn lemma_positions_cover(p: Seq<int>, n: int)
    requires
        p.len() == n,
        forall|i: int| 0 <= i < n ==> 0 <= #[trigger] p[i] < n,
        forall|i: int, j: int| 0 <= i < j < n ==> #[trigger] p[i] != #[trigger] p[j],
    ensures
        forall|x: int| 0 <= x < n ==> p.contains(x),
{
    assert(p.no_duplicates()) by {
        assert forall|i: int, j: int| 0 <= i < p.len() && 0 <= j < p.len() && i != j implies p[i] != p[j] by {
            if i < j {
                assert(p[i] != p[j]);
            } else {
                assert(p[j] != p[i]);
            }
        }
    }
    p.unique_seq_to_set();
    vstd::set_lib::lemma_int_range(0, n);
    let range = vstd::set_lib::set_int_range(0, n);
    assert(p.to_set().subset_of(range)) by {
        assert forall|x: int| p.to_set().contains(x) implies range.contains(x) by {
            assert(p.contains(x));
        }
    }
    vstd::set_lib::lemma_len_subset(p.to_set(), range);
    vstd::set_lib::lemma_subset_equality(p.to_set(), range);
    assert forall|x: int| 0 <= x < n implies p.contains(x) by {
        assert(range.contains(x));
        assert(p.to_set().contains(x));
    }
}

/// Two sequences of positions, both ascending in `sorts_before` order and
/// holding the same positions, are equal.
proof fn lemma_ranked_unique(a: Seq<FilmSchedule>, p: Seq<int>, q: Seq<int>)
    requires
        forall|x: int, y: int| 0 <= x < y < p.len() ==> sorts_before(a, #[trigger] p[x], #[trigger] p[y]),
        forall|x: int, y: int| 0 <= x < y < q.len() ==> sorts_before(a, #[trigger] q[x], #[trigger] q[y]),
        forall|v: int| p.contains(v) <==> q.contains(v),
    ensures
        p == q,
    decreases p.len(),
{
    if p.len() == 0 {
        if q.len() > 0 {
            assert(q.contains(q[0]));
        }
        assert(p =~= q);
    } else {
        assert(p.contains(p[0]));
        assert(q.len() > 0);
        assert(q.contains(q[0]));
        let j = choose|j: int| 0 <= j < q.len() && q[j] == p[0];
        let i = choose|i: int| 0 <= i < p.len() && p[i] == q[0];
        if j > 0 {
            assert(sorts_before(a, q[0], q[j]));
            if i > 0 {
                assert(sorts_before(a, p[0], p[i]));
            }
        }
        assert(p[0] == q[0]);
        let p1 = p.drop_first();
        let q1 = q.drop_first();
        assert forall|x: int, y: int| 0 <= x < y < p1.len() implies sorts_before(a, #[trigger] p1[x], #[trigger] p1[y]) by {
            assert(p1[x] == p[x + 1] && p1[y] == p[y + 1]);
        }
        assert forall|x: int, y: int| 0 <= x < y < q1.len() implies sorts_before(a, #[trigger] q1[x], #[trigger] q1[y]) by {
            assert(q1[x] == q[x + 1] && q1[y] == q[y + 1]);
        }
        assert forall|v: int| p1.contains(v) <==> q1.contains(v) by {
            if p1.contains(v) {
                let x = choose|x: int| 0 <= x < p1.len() && p1[x] == v;
                assert(p[x + 1] == v);
                assert(sorts_before(a, p[0], v));
                assert(q.contains(v));
                let y = choose|y: int| 0 <= y < q.len() && q[y] == v;
                assert(y != 0);
                assert(q1[y - 1] == v);
            }
            if q1.contains(v) {
                let x = choose|x: int| 0 <= x < q1.len() && q1[x] == v;
                assert(q[x + 1] == v);
                assert(sorts_before(a, q[0], v));
                assert(p.contains(v));
                let y = choose|y: int| 0 <= y < p.len() && p[y] == v;
                assert(y != 0);
                assert(p1[y - 1] == v);
            }
        }
        lemma_ranked_unique(a, p1, q1);
        assert(p =~= seq![p[0]] + p1);
        assert(q =~= seq![q[0]] + q1);
    }
}

/// Sorting films is deterministic: any two stable sorts of the same films by
/// earliest showtime are the same sequence.
pub proof fn lemma_stable_sort_unique(a: Seq<FilmSchedule>, b1: Seq<FilmSchedule>, b2: Seq<FilmSchedule>)
    requires
        stably_sorted_by_earliest(a, b1),
        stably_sorted_by_earliest(a, b2),
    ensures
        b1 == b2,
{
    let p1 = choose|p: Seq<int>| is_stable_sort_by_earliest(a, b1, p);
    let p2 = choose|p: Seq<int>| is_stable_sort_by_earliest(a, b2, p);
    let n = a.len() as int;
    assert forall|x: int, y: int| 0 <= x < y < p1.len() implies sorts_before(a, #[trigger] p1[x], #[trigger] p1[y]) by {
        assert(!earlier(b1[y].earliest, b1[x].earliest));
    }
    assert forall|x: int, y: int| 0 <= x < y < p2.len() implies sorts_before(a, #[trigger] p2[x], #[trigger] p2[y]) by {
        assert(!earlier(b2[y].earliest, b2[x].earliest));
    }
    lemma_positions_cover(p1, n);
    lemma_positions_cover(p2, n);
    assert forall|v: int| p1.contains(v) <==> p2.contains(v) by {
        if p1.contains(v) {
            let x = choose|x: int| 0 <= x < p1.len() && p1[x] == v;
            assert(0 <= p1[x] < n);
        }
        if p2.contains(v) {
            let x = choose|x: int| 0 <= x < p2.len() && p2[x] == v;
            assert(0 <= p2[x] < n);
        }
    }
    lemma_ranked_unique(a, p1, p2);
    assert forall|i: int| 0 <= i < b1.len() implies b1[i] == b2[i] by {
        assert(b1[i] == a[p1[i]]);
        assert(b2[i] == a[p2[i]]);
    }
    assert(b1 =~= b2);
}

/// A schedule holding nothing, put in a slot whose film is being moved.
fn placeholder_schedule() -> FilmSchedule {
    FilmSchedule {
        film: Film { slug: String::new(), title: String::new(), hero_uri: String::new(), is_event: false },
        dates: Vec::new(),
        earliest: UtcTime { secs: 0, nanos: 0 },
    }
}

/// Sort films by their earliest upcoming showtime, soonest first. Films with
/// the same earliest showtime keep their order.
pub fn sort_films(films: &mut [FilmSchedule])
    ensures
        stably_sorted_by_earliest(old(films)@, final(films)@),
{
    let ghost orig = films@;
    let n: usize = films.len();
    let mut taken: Vec<FilmSchedule> = Vec::new();
    let mut i: usize = 0;
    while i < n
        invariant
            n == orig.len(),
            i <= n,
            films@.len() == n,
            taken@ == orig.take(i as int),
            forall|j: int| i <= j < n ==> films@[j] == orig[j],
        decreases n - i,
    {
        let mut slot = placeholder_schedule();
        std::mem::swap(&mut films[i], &mut slot);
        taken.push(slot);
        assert(taken@ =~= orig.take(i + 1));
        i = i + 1;
    }
    assert(orig.take(n as int) =~= orig);
    sort_schedules(&mut taken);
    let ghost sorted = taken@;
    let mut k: usize = n;
    while k > 0
        invariant
            n == sorted.len(),
            k <= n,
            films@.len() == n,
            taken@ == sorted.take(k as int),
            forall|j: int| k <= j < n ==> films@[j] == sorted[j],
        decreases k,
    {
        let last = taken.pop();
        k = k - 1;
        match last {
            Some(x) => {
                let mut x = x;
                std::mem::swap(&mut films[k], &mut x);
            },
            None => {},
        }
        assert(taken@ =~= sorted.take(k as int));
    }
    assert(films@ =~= sorted);
}

/// Sorts a vector of films by earliest showtime, stably.
fn sort_schedules(films: &mut Vec<FilmSchedule>)
    ensures
        stably_sorted_by_earliest(old(films)@, final(films)@),
{
    let mut src: Vec<FilmSchedule> = Vec::new();
    std::mem::swap(films, &mut src);
    let ghost orig = src@;
    let n: usize = src.len();
    let mut out: Vec<FilmSchedule> = Vec::new();
    let ghost mut perm: Seq<int> = Seq::empty();
    let mut k: usize = 0;
    assert(src@.skip(0) =~= orig);
    while k < n
        invariant
            n == orig.len(),
            k <= n,
            src@ == orig.skip(k as int),
            out@.len() == k,
            perm.len() == k,
            forall|i: int| 0 <= i < k ==> 0 <= #[trigger] perm[i] < k && out@[i] == orig[perm[i]],
            forall|i: int, j: int| 0 <= i < j < k ==> #[trigger] perm[i] != #[trigger] perm[j],
            forall|i: int, j: int| 0 <= i < j < k ==> !earlier((#[trigger] out@[j]).earliest, (#[trigger] out@[i]).earliest),
            forall|i: int, j: int| 0 <= i < j < k && (#[trigger] out@[i]).earliest == (#[trigger] out@[j]).earliest ==> perm[i] < perm[j],
        decreases n - k,
    {
        assert(src@[0] == orig[k as int]);
        let x = src.remove(0);
        assert(src@ =~= orig.skip(k + 1));
        let mut q: usize = 0;
        while q < out.len() && !x.earliest.is_before(&out[q].earliest)
            invariant
                q <= out@.len(),
                forall|i: int| 0 <= i < q ==> !earlier(x.earliest, (#[trigger] out@[i]).earliest),
            decreases out@.len() - q,
        {
            q = q + 1;
        }
        let ghost old_out = out@;
        let ghost old_perm = perm;
        out.insert(q, x);
        proof {
            perm = perm.insert(q as int, k as int);
            assert forall|i: int| 0 <= i < k + 1 implies 0 <= #[trigger] perm[i] < k + 1 && out@[i] == orig[perm[i]] by {
                if i > q {
                    assert(perm[i] == old_perm[i - 1] && out@[i] == old_out[i - 1]);
                } else if i < q {
                    assert(perm[i] == old_perm[i] && out@[i] == old_out[i]);
                }
            }
            assert forall|i: int, j: int| 0 <= i < j < k + 1 implies #[trigger] perm[i] != #[trigger] perm[j] by {
                if i > q {
                    assert(perm[i] == old_perm[i - 1] && perm[j] == old_perm[j - 1]);
                } else if i == q {
                    assert(perm[j] == old_perm[j - 1]);
                } else if j < q {
                    assert(perm[i] == old_perm[i] && perm[j] == old_perm[j]);
                } else if j == q {
                    assert(perm[i] == old_perm[i]);
                } else {
                    assert(perm[i] == old_perm[i] && perm[j] == old_perm[j - 1]);
                }
            }
            assert forall|i: int| q < i < k + 1 implies earlier(x.earliest, (#[trigger] out@[i]).earliest) by {
                assert(out@[i] == old_out[i - 1]);
                assert(out@[q as int + 1] == old_out[q as int]);
                if i > q + 1 {
                    assert(!earlier(old_out[i - 1].earliest, old_out[q as int].earliest));
                }
            }
            assert forall|i: int, j: int| 0 <= i < j < k + 1 implies
                !earlier((#[trigger] out@[j]).earliest, (#[trigger] out@[i]).earliest)
                && (out@[i].earliest == out@[j].earliest ==> perm[i] < perm[j]) by {
                if i > q {
                    assert(out@[i] == old_out[i - 1] && out@[j] == old_out[j - 1]);
                    assert(perm[i] == old_perm[i - 1] && perm[j] == old_perm[j - 1]);
                } else if i == q {
                    assert(out@[j] == old_out[j - 1]);
                } else if j < q {
                    assert(out@[i] == old_out[i] && out@[j] == old_out[j]);
                    assert(perm[i] == old_perm[i] && perm[j] == old_perm[j]);
                } else if j == q {
                    assert(out@[i] == old_out[i]);
                    assert(perm[i] == old_perm[i]);
                } else {
                    assert(out@[i] == old_out[i] && out@[j] == old_out[j - 1]);
                    assert(perm[i] == old_perm[i] && perm[j] == old_perm[j - 1]);
                }
            }
        }
        k = k + 1;
    }
    *films = out;
    assert(is_stable_sort_by_earliest(orig, films@, perm));
}

} // verus!
