//! Instants and the date and time labels shown on the page.
//!
//! Parsing of the feed's timestamps is chrono's; the labels are built here
//! from the parsed fields.

use chrono::{Datelike, NaiveDate, NaiveDateTime, Timelike};
use vstd::prelude::*;

use crate::text::push_char;

verus! {

/// An instant in UTC: whole seconds since the Unix epoch and the nanoseconds
/// past that second (from 1_000_000_000 up during a leap second).
#[derive(Clone, Copy, Debug, PartialEq, Eq, Structural)]
pub struct UtcTime {
    pub secs: i64,
    pub nanos: u32,
}

/// `a` is strictly earlier than `b`.
pub open spec fn earlier(a: UtcTime, b: UtcTime) -> bool {
    a.secs < b.secs || (a.secs == b.secs && a.nanos < b.nanos)
}

impl UtcTime {
    /// `self` is strictly earlier than `other`.
    pub fn is_before(&self, other: &UtcTime) -> (r: bool)
        ensures
            r == earlier(*self, *other),
    {
        self.secs < other.secs || (self.secs == other.secs && self.nanos < other.nanos)
    }
}

/// What chrono's `NaiveDate::parse_from_str(s, "%Y-%m-%d")` gives for `s`,
/// as (month, day of month, days since Sunday).
pub uninterp spec fn parsed_date(s: Seq<char>) -> Option<(u32, u32, u32)>;

/// What chrono's `NaiveDateTime::parse_from_str(s, "%Y-%m-%dT%H:%M:%S")` gives
/// for `s`, as (seconds and nanoseconds of the instant it names when read as
/// UTC, hour, minute).
pub uninterp spec fn parsed_date_time(s: Seq<char>) -> Option<(i64, u32, u32, u32)>;

/// Calls chrono's `NaiveDate::parse_from_str` with the format "%Y-%m-%d".
/// Trusted: the result is `parsed_date` of the text; a parsed date has a
/// month from 1 to 12, a day from 1 to 31 and a weekday number below 7, as
/// chrono's `Datelike` and `Weekday` documentation states.
#[verifier::external_body]
fn parse_date(s: &str) -> (r: Option<(u32, u32, u32)>)
    ensures
        r == parsed_date(s@),
        r matches Some((m, d, w)) ==> 1 <= m <= 12 && 1 <= d <= 31 && w < 7,
{
    match NaiveDate::parse_from_str(s, "%Y-%m-%d") {
        Ok(d) => Some((d.month(), d.day(), d.weekday().num_days_from_sunday())),
        Err(_) => None,
    }
}

/// Calls chrono's `NaiveDateTime::parse_from_str` with the format
/// "%Y-%m-%dT%H:%M:%S" (a timestamp with no zone suffix).
/// Trusted: the result is `parsed_date_time` of the text; the hour is below
/// 24, the minute below 60 and the nanoseconds below 2_000_000_000, as
/// chrono's `Timelike` and `DateTime::timestamp_subsec_nanos` documentation
/// states.
#[verifier::external_body]
fn parse_date_time(s: &str) -> (r: Option<(i64, u32, u32, u32)>)
    ensures
        r == parsed_date_time(s@),
        r matches Some((_, n, h, m)) ==> n < 2_000_000_000 && h < 24 && m < 60,
{
    match NaiveDateTime::parse_from_str(s, "%Y-%m-%dT%H:%M:%S") {
        Ok(t) => Some((t.and_utc().timestamp(), t.and_utc().timestamp_subsec_nanos(), t.hour(), t.minute())),
        Err(_) => None,
    }
}

/// The instant a feed timestamp names when read as UTC, if it parses.
pub open spec fn utc_instant(s: Seq<char>) -> Option<UtcTime> {
    match parsed_date_time(s) {
        Some((secs, nanos, _, _)) => Some(UtcTime { secs, nanos }),
        None => None,
    }
}

/// Parse a feed timestamp such as "2026-09-05T23:00:00" as a UTC instant.
pub fn parse_utc(ts: &str) -> (r: Option<UtcTime>)
    ensures
        r == utc_instant(ts@),
{
    match parse_date_time(ts) {
        Some((secs, nanos, _, _)) => Some(UtcTime { secs, nanos }),
        None => None,
    }
}

/// The character of a decimal digit.
pub open spec fn digit(d: nat) -> char {
    (48 + d) as char
}

/// The decimal numeral of `n`, without leading zeros.
pub open spec fn decimal(n: nat) -> Seq<char>
    decreases n,
{
    if n < 10 {
        seq![digit(n)]
    } else {
        decimal(n / 10) + seq![digit(n % 10)]
    }
}

/// The number that a text of decimal digits reads as, most significant first.
pub open spec fn digits_value(s: Seq<char>) -> int
    decreases s.len(),
{
    if s.len() == 0 {
        0
    } else {
        digits_value(s.drop_last()) * 10 + (s.last() as int - '0' as int)
    }
}

/// The decimal numeral of `n` reads back as `n`: it is made of the digits
/// `0` to `9` only, and starts with `0` only when `n` is 0.
pub proof fn lemma_decimal_reads_back(n: nat)
    ensures
        decimal(n).len() >= 1,
        forall|i: int| 0 <= i < decimal(n).len() ==>
            '0' as int <= #[trigger] decimal(n)[i] as int <= '9' as int,
        n > 0 ==> decimal(n)[0] != '0',
        digits_value(decimal(n)) == n,
    decreases n,
{
    if n < 10 {
        assert(decimal(n) =~= seq![digit(n)]);
        assert(decimal(n).drop_last() =~= Seq::<char>::empty());
        assert(digits_value(Seq::<char>::empty()) == 0);
        assert(digit(n) as int == '0' as int + n);
        assert(digits_value(decimal(n)) == digits_value(decimal(n).drop_last()) * 10 + (decimal(n).last() as int - '0' as int));
    } else {
        lemma_decimal_reads_back(n / 10);
        let init = decimal(n / 10);
        assert(decimal(n).drop_last() =~= init);
        assert(decimal(n).last() == digit(n % 10));
        assert forall|i: int| 0 <= i < decimal(n).len() implies
            '0' as int <= #[trigger] decimal(n)[i] as int <= '9' as int by {
            if i < init.len() {
                assert(decimal(n)[i] == init[i]);
            }
        }
        assert(decimal(n)[0] == init[0]);
        assert(digit(n % 10) as int == '0' as int + n % 10);
        assert(digits_value(decimal(n)) == digits_value(init) * 10 + (n % 10));
        assert(n / 10 * 10 + n % 10 == n) by (nonlinear_arith);
    }
}

pub(crate) fn digit_char(d: u32) -> (c: char)
    requires
        d < 10,
    ensures
        c == digit(d as nat),
{
    let b: u8 = 48 + d as u8;
    b as char
}

/// Appends the decimal numeral of `n`.
pub(crate) fn push_decimal(out: &mut String, n: u64)
    ensures
        final(out)@ == old(out)@ + decimal(n as nat),
    decreases n,
{
    if n >= 10 {
        push_decimal(out, n / 10);
    }
    push_char(out, digit_char((n % 10) as u32));
}

/// The abbreviated English name of a weekday counted from Sunday.
pub open spec fn weekday_abbr(w: u32) -> Seq<char> {
    if w == 0 { "Sun"@ }
    else if w == 1 { "Mon"@ }
    else if w == 2 { "Tue"@ }
    else if w == 3 { "Wed"@ }
    else if w == 4 { "Thu"@ }
    else if w == 5 { "Fri"@ }
    else { "Sat"@ }
}

/// The abbreviated English name of a month counted from 1.
pub open spec fn month_abbr(m: u32) -> Seq<char> {
    if m == 1 { "Jan"@ }
    else if m == 2 { "Feb"@ }
    else if m == 3 { "Mar"@ }
    else if m == 4 { "Apr"@ }
    else if m == 5 { "May"@ }
    else if m == 6 { "Jun"@ }
    else if m == 7 { "Jul"@ }
    else if m == 8 { "Aug"@ }
    else if m == 9 { "Sep"@ }
    else if m == 10 { "Oct"@ }
    else if m == 11 { "Nov"@ }
    else { "Dec"@ }
}

/// A date label such as "Sat Sep 5": weekday, month, day without a leading zero.
pub open spec fn date_label(m: u32, d: u32, w: u32) -> Seq<char> {
    weekday_abbr(w) + " "@ + month_abbr(m) + " "@ + decimal(d as nat)
}

/// A date label is the weekday's three letters, a space, the month's three
/// letters, a space, and the day of month in decimal, which reads back as
/// the day.
pub proof fn lemma_date_label_reads_the_day(m: u32, d: u32, w: u32)
    ensures
        date_label(m, d, w).len() >= 9,
        date_label(m, d, w)[3] == ' ',
        date_label(m, d, w)[7] == ' ',
        digits_value(date_label(m, d, w).skip(8)) == d,
{
    reveal_strlit(" ");
    reveal_strlit("Sun"); reveal_strlit("Mon"); reveal_strlit("Tue"); reveal_strlit("Wed");
    reveal_strlit("Thu"); reveal_strlit("Fri"); reveal_strlit("Sat");
    reveal_strlit("Jan"); reveal_strlit("Feb"); reveal_strlit("Mar"); reveal_strlit("Apr");
    reveal_strlit("May"); reveal_strlit("Jun"); reveal_strlit("Jul"); reveal_strlit("Aug");
    reveal_strlit("Sep"); reveal_strlit("Oct"); reveal_strlit("Nov"); reveal_strlit("Dec");
    lemma_decimal_reads_back(d as nat);
    assert(weekday_abbr(w).len() == 3);
    assert(month_abbr(m).len() == 3);
    let lab = date_label(m, d, w);
    assert(lab.skip(8) =~= decimal(d as nat));
    assert(lab[3] == " "@[0]);
    assert(lab[7] == " "@[0]);
}

/// What `fmt_date` shows for a business date text.
pub open spec fn shown_date(date: Seq<char>) -> Seq<char> {
    match parsed_date(date) {
        Some((m, d, w)) => date_label(m, d, w),
        None => date,
    }
}

/// The hour on a 12-hour clock (1 to 12).
pub open spec fn hour12(h: u32) -> nat {
    if h % 12 == 0 { 12 } else { (h % 12) as nat }
}

/// A time label such as "4:00 PM": 12-hour clock without a leading zero,
/// two-digit minute, AM before noon and PM from noon.
pub open spec fn time_label(h: u32, m: u32) -> Seq<char> {
    decimal(hour12(h)) + ":"@ + seq![digit((m / 10) as nat), digit((m % 10) as nat)] + " "@
        + (if h < 12 { "AM"@ } else { "PM"@ })
}

/// A time label reads the hour on a 12-hour clock, then the minute: the
/// hour is `h mod 12` in decimal without a leading zero, 12 in its place for
/// midnight and noon; then `:`, the minute in two digits, a space, and `AM`
/// before noon or `PM` from noon.
pub proof fn lemma_time_label_reads_the_time(h: u32, m: u32)
    requires
        h < 24,
        m < 60,
    ensures
        ({
            let lab = time_label(h, m);
            let q = h % 12;
            let k = lab.len() - 6;
            &&& q == 0 ==> lab.len() == 8 && lab[0] == '1' && lab[1] == '2'
            &&& 1 <= q <= 9 ==> lab.len() == 7 && lab[0] as int == '0' as int + q
            &&& q >= 10 ==> lab.len() == 8 && lab[0] == '1' && lab[1] as int == '0' as int + q - 10
            &&& lab[k] == ':'
            &&& lab[k + 1] as int == '0' as int + m / 10
            &&& lab[k + 2] as int == '0' as int + m % 10
            &&& lab[k + 3] == ' '
            &&& lab[k + 4] == (if h < 12 { 'A' } else { 'P' })
            &&& lab[k + 5] == 'M'
        }),
{
    reveal_strlit(":");
    reveal_strlit(" ");
    reveal_strlit("AM");
    reveal_strlit("PM");
    reveal_with_fuel(decimal, 2);
    let hh = hour12(h);
    let tail = ":"@ + seq![digit((m / 10) as nat), digit((m % 10) as nat)] + " "@
        + (if h < 12 { "AM"@ } else { "PM"@ });
    assert(tail.len() == 6);
    assert(time_label(h, m) == decimal(hh) + tail);
    if hh < 10 {
        assert(decimal(hh) =~= seq![digit(hh)]);
    } else {
        assert(hh / 10 == 1);
        assert(decimal(hh) =~= seq![digit(1), digit((hh % 10) as nat)]);
    }
    let lab = time_label(h, m);
    let k = lab.len() - 6;
    assert(lab.skip(k) =~= tail);
    assert(lab[k] == tail[0]);
    assert(lab[k + 1] == tail[1]);
    assert(lab[k + 2] == tail[2]);
    assert(lab[k + 3] == tail[3]);
    assert(lab[k + 4] == tail[4]);
    assert(lab[k + 5] == tail[5]);
}

/// What `fmt_time` shows for a local timestamp text.
pub open spec fn shown_time(ts: Seq<char>) -> Seq<char> {
    match parsed_date_time(ts) {
        Some((_, _, h, m)) => time_label(h, m),
        None => ts,
    }
}

/// The label of a parsed date: weekday (counted from Sunday), month (counted
/// from 1) and day of month, as "Sat Sep 5".
pub fn date_label_text(month: u32, day: u32, weekday: u32) -> (out: String)
    ensures
        out@ == date_label(month, day, weekday),
{
    let mut out = String::new();
    let wname = if weekday == 0 { "Sun" } else if weekday == 1 { "Mon" } else if weekday == 2 { "Tue" }
        else if weekday == 3 { "Wed" } else if weekday == 4 { "Thu" } else if weekday == 5 { "Fri" }
        else { "Sat" };
    out.append(wname);
    out.append(" ");
    let mname = if month == 1 { "Jan" } else if month == 2 { "Feb" } else if month == 3 { "Mar" }
        else if month == 4 { "Apr" } else if month == 5 { "May" } else if month == 6 { "Jun" }
        else if month == 7 { "Jul" } else if month == 8 { "Aug" } else if month == 9 { "Sep" }
        else if month == 10 { "Oct" } else if month == 11 { "Nov" } else { "Dec" };
    out.append(mname);
    out.append(" ");
    push_decimal(&mut out, day as u64);
    out
}

/// The label of a parsed time of day, as "4:00 PM".
pub fn time_label_text(hour: u32, minute: u32) -> (out: String)
    requires
        hour < 24,
        minute < 60,
    ensures
        out@ == time_label(hour, minute),
{
    let mut out = String::new();
    let h12: u32 = if hour % 12 == 0 { 12 } else { hour % 12 };
    push_decimal(&mut out, h12 as u64);
    out.append(":");
    push_char(&mut out, digit_char(minute / 10));
    push_char(&mut out, digit_char(minute % 10));
    out.append(" ");
    if hour < 12 {
        out.append("AM");
    } else {
        out.append("PM");
    }
    out
}

/// Format a business date "2026-09-05" as "Sat Sep 5". Falls back to the raw string.
pub fn fmt_date(date: &str) -> (out: String)
    ensures
        out@ == shown_date(date@),
{
    match parse_date(date) {
        Some((m, d, w)) => date_label_text(m, d, w),
        None => String::from_str(date),
    }
}

/// Format a local timestamp "2026-09-05T16:00:00" as "4:00 PM". Falls back to the raw string.
pub fn fmt_time(clt: &str) -> (out: String)
    ensures
        out@ == shown_time(clt@),
{
    match parse_date_time(clt) {
        Some((_, _, h, m)) => time_label_text(h, m),
        None => String::from_str(clt),
    }
}

} // verus!
