//! The four-week calendar: which films play on each day, starting from the
//! Sunday of the current week.

use chrono::{Datelike, NaiveDate};
use vstd::prelude::*;

use crate::clock::{decimal, digit, digit_char, digits_value, lemma_decimal_reads_back, push_decimal, UtcTime};
use crate::grouping::strs;
use crate::order::str_eq;
use crate::schedule::FilmSchedule;
use crate::text::push_char;

verus! {

/// The number of days the calendar shows.
pub const CALENDAR_DAYS: usize = 28;

/// One day of the calendar.
#[derive(Debug, Clone)]
pub struct CalendarDay {
    /// The day as "M/D", without leading zeros or year.
    pub date: String,
    /// The day is before today.
    pub ghosted: bool,
    /// The titles of the films playing that day, in film order.
    pub films: Vec<String>,
}

/// What chrono's `NaiveDate::from_epoch_days(days)` gives for a day number
/// (1970-01-01 being day 0), as (year, month, day of month, days since Sunday).
pub uninterp spec fn epoch_date(days: i32) -> Option<(i32, u32, u32, u32)>;

/// Calls chrono's `NaiveDate::from_epoch_days`.
/// Trusted: the result is `epoch_date` of the day number; a date has a month
/// from 1 to 12, a day from 1 to 31 and a weekday number below 7, as chrono's
/// `Datelike` and `Weekday` documentation states; and since day numbers count
/// consecutive days of the proleptic Gregorian calendar from 1970-01-01, a
/// Thursday, day `days` falls `(days + 4) mod 7` days after a Sunday.
#[verifier::external_body]
fn date_of_epoch_day(days: i32) -> (r: Option<(i32, u32, u32, u32)>)
    ensures
        r == epoch_date(days),
        r matches Some((_, m, d, w)) ==> 1 <= m <= 12 && 1 <= d <= 31 && w < 7,
        r matches Some((_, _, _, w)) ==> w == (days + 4) % 7,
{
    match NaiveDate::from_epoch_days(days) {
        Some(d) => Some((d.year(), d.month(), d.day(), d.weekday().num_days_from_sunday())),
        None => None,
    }
}

/// The day number (1970-01-01 being day 0) of the UTC day holding `t`.
pub open spec fn day_number(t: UtcTime) -> int {
    t.secs as int / 86400
}

/// The day number of the UTC day holding the instant `secs` seconds after the epoch.
fn epoch_day(secs: i64) -> (d: i64)
    ensures
        d == secs as int / 86400,
{
    if secs >= 0 {
        secs / 86400
    } else {
        let a: i64 = -(secs + 1);
        let q: i64 = a / 86400;
        assert(-q - 1 == secs as int / 86400) by (nonlinear_arith)
            requires
                a == -(secs + 1),
                q == a / 86400,
                a >= 0,
        {
            assert(a == 86400 * q + a % 86400);
            assert(0 <= a % 86400 < 86400);
            assert(secs == 86400 * (-q - 1) + (86399 - a % 86400));
        }
        -q - 1
    }
}

/// Four digits, zero-padded, for a number below 10000.
pub open spec fn four_digits(n: nat) -> Seq<char> {
    if n < 10 {
        seq!['0', '0', '0'] + decimal(n)
    } else if n < 100 {
        seq!['0', '0'] + decimal(n)
    } else if n < 1000 {
        seq!['0'] + decimal(n)
    } else {
        decimal(n)
    }
}

/// A year as chrono's `%Y` writes it: four digits, zero-padded, from 0 to
/// 9999; otherwise a sign and at least four digits.
pub open spec fn year_text(y: i32) -> Seq<char> {
    if 0 <= y <= 9999 {
        four_digits(y as nat)
    } else if y < 0 {
        seq!['-'] + four_digits((-y) as nat)
    } else {
        seq!['+'] + four_digits(y as nat)
    }
}

/// Two digits, zero-padded, for a number below 100.
pub open spec fn two_digits(n: nat) -> Seq<char> {
    seq![digit(n / 10), digit(n % 10)]
}

/// An ISO date "YYYY-MM-DD", as business dates are written in the feed.
pub open spec fn iso_date(y: i32, m: u32, d: u32) -> Seq<char> {
    year_text(y) + seq!['-'] + two_digits(m as nat) + seq!['-'] + two_digits(d as nat)
}

/// Four zero-padded digits read back the number: thousands, hundreds, tens
/// and units, in that order.
pub proof fn lemma_four_digits_read_back(n: nat)
    requires
        n < 10000,
    ensures
        four_digits(n).len() == 4,
        four_digits(n)[0] as int == '0' as int + n / 1000,
        four_digits(n)[1] as int == '0' as int + (n / 100) % 10,
        four_digits(n)[2] as int == '0' as int + (n / 10) % 10,
        four_digits(n)[3] as int == '0' as int + n % 10,
{
    reveal_with_fuel(decimal, 4);
    if n < 10 {
        assert(decimal(n) =~= seq![digit(n)]);
    } else if n < 100 {
        assert(decimal(n) =~= seq![digit(n / 10), digit(n % 10)]);
    } else if n < 1000 {
        assert(decimal(n / 10) =~= seq![digit(n / 100), digit((n / 10) % 10)]) by {
            assert((n / 10) / 10 == n / 100);
        }
        assert(decimal(n) =~= seq![digit(n / 100), digit((n / 10) % 10), digit(n % 10)]);
    } else {
        assert((n / 10) / 10 == n / 100);
        assert((n / 100) / 10 == n / 1000);
        assert(decimal(n / 100) =~= seq![digit(n / 1000), digit((n / 100) % 10)]);
        assert(decimal(n / 10) =~= seq![digit(n / 1000), digit((n / 100) % 10), digit((n / 10) % 10)]);
        assert(decimal(n) =~= seq![digit(n / 1000), digit((n / 100) % 10), digit((n / 10) % 10), digit(n % 10)]);
    }
}

/// The ISO text of a date in years 0 to 9999 is "YYYY-MM-DD" as the feed
/// writes business dates: the year in four digits, then the month and the
/// day of month in exactly two zero-padded digits each, separated by `-`.
pub proof fn lemma_iso_date_reads_the_date(y: i32, m: u32, d: u32)
    requires
        0 <= y <= 9999,
        m < 100,
        d < 100,
    ensures
        ({
            let iso = iso_date(y, m, d);
            &&& iso.len() == 10
            &&& iso[0] as int == '0' as int + y / 1000
            &&& iso[1] as int == '0' as int + (y / 100) % 10
            &&& iso[2] as int == '0' as int + (y / 10) % 10
            &&& iso[3] as int == '0' as int + y % 10
            &&& iso[4] == '-'
            &&& iso[5] as int == '0' as int + m / 10
            &&& iso[6] as int == '0' as int + m % 10
            &&& iso[7] == '-'
            &&& iso[8] as int == '0' as int + d / 10
            &&& iso[9] as int == '0' as int + d % 10
        }),
{
    lemma_four_digits_read_back(y as nat);
    let iso = iso_date(y, m, d);
    let yd = four_digits(y as nat);
    assert(iso =~= yd + seq!['-', digit((m / 10) as nat), digit((m % 10) as nat), '-', digit((d / 10) as nat), digit((d % 10) as nat)]);
    assert(iso[0] == yd[0] && iso[1] == yd[1] && iso[2] == yd[2] && iso[3] == yd[3]);
}

/// A short date "M/D" without leading zeros.
pub open spec fn short_date(m: u32, d: u32) -> Seq<char> {
    decimal(m as nat) + seq!['/'] + decimal(d as nat)
}

/// A short date is the month and the day of month in decimal around one
/// `/`: every other character is a digit, the digits before the `/` read back
/// as the month and those after it as the day.
pub proof fn lemma_short_date_reads_back(m: u32, d: u32)
    ensures
        exists|k: int| {
            &&& 0 < k < short_date(m, d).len() - 1
            &&& #[trigger] short_date(m, d)[k] == '/'
            &&& digits_value(short_date(m, d).take(k)) == m
            &&& digits_value(short_date(m, d).skip(k + 1)) == d
            &&& forall|i: int| 0 <= i < short_date(m, d).len() && i != k ==>
                '0' as int <= #[trigger] short_date(m, d)[i] as int <= '9' as int
        },
{
    lemma_decimal_reads_back(m as nat);
    lemma_decimal_reads_back(d as nat);
    let sd = short_date(m, d);
    let dm = decimal(m as nat);
    let dd = decimal(d as nat);
    let k = dm.len() as int;
    assert(sd.take(k) =~= dm);
    assert(sd.skip(k + 1) =~= dd);
    assert(sd[k] == '/');
    assert forall|i: int| 0 <= i < sd.len() && i != k implies '0' as int <= #[trigger] sd[i] as int <= '9' as int by {
        if i < k {
            assert(sd[i] == dm[i]);
        } else {
            assert(sd[i] == dd[i - k - 1]);
        }
    }
}

/// The film plays on the business date `iso`.
pub open spec fn plays_on(fs: FilmSchedule, iso: Seq<char>) -> bool {
    exists|j: int| 0 <= j < fs.dates@.len() && (#[trigger] fs.dates@[j]).0@ == iso
}

/// The titles of the films that play on the business date `iso`, in film order.
pub open spec fn titles_on(films: Seq<FilmSchedule>, iso: Seq<char>) -> Seq<Seq<char>>
    decreases films.len(),
{
    if films.len() == 0 {
        Seq::empty()
    } else if plays_on(films.last(), iso) {
        titles_on(films.drop_last(), iso).push(films.last().film.title@)
    } else {
        titles_on(films.drop_last(), iso)
    }
}

/// A calendar day lists the title of every film that plays on its date and
/// of no other, in film order: the films filtered by that test, by title.
pub proof fn lemma_titles_on_are_the_filter(films: Seq<FilmSchedule>, iso: Seq<char>)
    ensures
        titles_on(films, iso) == films.filter(|fs: FilmSchedule| plays_on(fs, iso)).map_values(
            |fs: FilmSchedule| fs.film.title@,
        ),
    decreases films.len(),
{
    reveal(Seq::filter);
    let pred = |fs: FilmSchedule| plays_on(fs, iso);
    let title = |fs: FilmSchedule| fs.film.title@;
    if films.len() > 0 {
        lemma_titles_on_are_the_filter(films.drop_last(), iso);
        let sub = films.drop_last().filter(pred);
        if pred(films.last()) {
            assert(sub.push(films.last()).map_values(title) =~= sub.map_values(title).push(films.last().film.title@));
        }
    } else {
        assert(films.filter(pred).map_values(title) =~= Seq::<Seq<char>>::empty());
    }
}

/// The day number is one chrono can turn into a date.
pub open spec fn has_epoch_date(n: int) -> bool {
    &&& i32::MIN <= n <= i32::MAX
    &&& epoch_date(n as i32) is Some
}

/// The first day of the calendar: the Sunday of the week holding today.
pub open spec fn calendar_start(now: UtcTime) -> int {
    match epoch_date(day_number(now) as i32) {
        Some((_, _, _, w)) => day_number(now) - w,
        None => day_number(now),
    }
}

/// Every day of the calendar that starts at `now` has a date.
pub open spec fn calendar_dated(now: UtcTime) -> bool {
    &&& has_epoch_date(day_number(now))
    &&& forall|i: int| 0 <= i < CALENDAR_DAYS ==> #[trigger] has_epoch_date(calendar_start(now) + i)
}

/// `c` is the calendar entry of day number `n`, today being `today`.
pub open spec fn is_calendar_day(films: Seq<FilmSchedule>, n: int, today: int, c: CalendarDay) -> bool {
    &&& epoch_date(n as i32) matches Some((y, m, d, _))
    &&& c.date@ == short_date(m, d)
    &&& c.ghosted == (n < today)
    &&& strs(c.films@) == titles_on(films, iso_date(y, m, d))
}

/// Appends `n` below 10000 as four zero-padded digits.
fn push_four_digits(out: &mut String, n: u64)
    requires
        n < 10000,
    ensures
        final(out)@ == old(out)@ + four_digits(n as nat),
{
    let ghost start = out@;
    if n < 10 {
        push_char(out, '0');
        push_char(out, '0');
        push_char(out, '0');
    } else if n < 100 {
        push_char(out, '0');
        push_char(out, '0');
    } else if n < 1000 {
        push_char(out, '0');
    }
    push_decimal(out, n);
    assert(out@ =~= start + four_digits(n as nat));
}

/// The ISO date text of a calendar date.
fn iso_text(y: i32, m: u32, d: u32) -> (out: String)
    requires
        m < 100,
        d < 100,
    ensures
        out@ == iso_date(y, m, d),
{
    let mut out = String::new();
    if 0 <= y && y <= 9999 {
        push_four_digits(&mut out, y as u64);
    } else if y < 0 {
        push_char(&mut out, '-');
        let a: i64 = -(y as i64);
        if a < 10000 {
            push_four_digits(&mut out, a as u64);
        } else {
            push_decimal(&mut out, a as u64);
        }
    } else {
        push_char(&mut out, '+');
        if y < 10000 {
            push_four_digits(&mut out, y as u64);
        } else {
            push_decimal(&mut out, y as u64);
        }
    }
    push_char(&mut out, '-');
    push_char(&mut out, digit_char(m / 10));
    push_char(&mut out, digit_char(m % 10));
    push_char(&mut out, '-');
    push_char(&mut out, digit_char(d / 10));
    push_char(&mut out, digit_char(d % 10));
    assert(out@ =~= iso_date(y, m, d));
    out
}

/// Whether the film plays on the business date `iso`.
fn film_plays_on(fs: &FilmSchedule, iso: &String) -> (r: bool)
    ensures
        r == plays_on(*fs, iso@),
{
    let mut j: usize = 0;
    while j < fs.dates.len()
        invariant
            j <= fs.dates@.len(),
            forall|i: int| 0 <= i < j ==> (#[trigger] fs.dates@[i]).0@ != iso@,
        decreases fs.dates@.len() - j,
    {
        if str_eq(fs.dates[j].0.as_str(), iso.as_str()) {
            return true;
        }
        j = j + 1;
    }
    false
}

/// The calendar entry of one day: its short date, whether it is ghosted, and
/// the titles of the films that play on it.
pub fn calendar_day(films: &[FilmSchedule], y: i32, m: u32, d: u32, ghosted: bool) -> (c: CalendarDay)
    requires
        m < 100,
        d < 100,
    ensures
        c.date@ == short_date(m, d),
        c.ghosted == ghosted,
        strs(c.films@) == titles_on(films@, iso_date(y, m, d)),
{
    let iso = iso_text(y, m, d);
    let mut date = String::new();
    push_decimal(&mut date, m as u64);
    push_char(&mut date, '/');
    push_decimal(&mut date, d as u64);
    let mut titles: Vec<String> = Vec::new();
    let mut k: usize = 0;
    while k < films.len()
        invariant
            k <= films@.len(),
            strs(titles@) == titles_on(films@.take(k as int), iso@),
        decreases films@.len() - k,
    {
        proof {
            assert(films@.take(k + 1).drop_last() =~= films@.take(k as int));
            assert(films@.take(k + 1).last() == films@[k as int]);
        }
        let ghost before = titles@;
        if film_plays_on(&films[k], &iso) {
            titles.push(films[k].film.title.clone());
            assert(strs(titles@) =~= strs(before).push(films@[k as int].film.title@));
        }
        k = k + 1;
    }
    proof {
        assert(films@.take(films@.len() as int) =~= films@);
    }
    CalendarDay { date, ghosted, films: titles }
}

/// The four-week calendar for `now`: 28 days from the Sunday of the week
/// holding today (its UTC date), with the days before today ghosted and each
/// day listing the titles of the films that play on it. Empty when chrono
/// cannot date one of those days.
pub fn build_calendar(films: &[FilmSchedule], now: UtcTime) -> (cal: Vec<CalendarDay>)
    ensures
        calendar_dated(now) ==> {
            &&& cal@.len() == CALENDAR_DAYS
            &&& forall|i: int| 0 <= i < CALENDAR_DAYS ==>
                is_calendar_day(films@, calendar_start(now) + i, day_number(now), #[trigger] cal@[i])
        },
        !calendar_dated(now) ==> cal@.len() == 0,
        calendar_dated(now) ==> (calendar_start(now) + 4) % 7 == 0,
        calendar_dated(now) ==> calendar_start(now) <= day_number(now) < calendar_start(now) + 7,
{
    let today: i64 = epoch_day(now.secs);
    if today < i32::MIN as i64 || today > i32::MAX as i64 {
        return Vec::new();
    }
    let w: u32 = match date_of_epoch_day(today as i32) {
        Some((_, _, _, w)) => w,
        None => {
            return Vec::new();
        },
    };
    let start: i64 = today - w as i64;
    assert((start + 4) % 7 == 0) by (nonlinear_arith)
        requires
            w == (today + 4) % 7,
            start == today - w,
    {
        assert(today + 4 == 7 * ((today + 4) / 7) + (today + 4) % 7);
        assert(start + 4 == 7 * ((today + 4) / 7));
    }
    let mut cal: Vec<CalendarDay> = Vec::new();
    let mut i: usize = 0;
    while i < CALENDAR_DAYS
        invariant
            i <= CALENDAR_DAYS,
            today == day_number(now),
            has_epoch_date(day_number(now)),
            start == calendar_start(now),
            cal@.len() == i,
            forall|j: int| 0 <= j < i ==> #[trigger] has_epoch_date(calendar_start(now) + j),
            forall|j: int| 0 <= j < i ==>
                is_calendar_day(films@, calendar_start(now) + j, day_number(now), #[trigger] cal@[j]),
        decreases CALENDAR_DAYS - i,
    {
        let n: i64 = start + i as i64;
        if n < i32::MIN as i64 || n > i32::MAX as i64 {
            assert(!has_epoch_date(calendar_start(now) + i));
            return Vec::new();
        }
        match date_of_epoch_day(n as i32) {
            Some((y, m, d, _)) => {
                let day = calendar_day(films, y, m, d, n < today);
                cal.push(day);
            },
            None => {
                assert(!has_epoch_date(calendar_start(now) + i));
                return Vec::new();
            },
        }
        i = i + 1;
    }
    cal
}

} // verus!
