// is_dtla_future: keep only DTLA (cinema 1701) sessions in the future.
use alamo::{is_dtla_future, Session, UtcTime};
use chrono::{DateTime, TimeZone, Utc};

fn utc(t: DateTime<Utc>) -> UtcTime {
    UtcTime { secs: t.timestamp(), nanos: t.timestamp_subsec_nanos() }
}

fn session(cinema: &str, utc: &str) -> Session {
    Session {
        presentation_slug: "ernie-emma".to_string(),
        cinema_id: cinema.to_string(),
        show_time_clt: "2026-09-05T16:00:00".to_string(),
        show_time_utc: utc.to_string(),
        business_date_clt: "2026-09-05".to_string(),
    }
}

#[test]
fn dtla_future_session_is_kept() {
    let now = utc(Utc.with_ymd_and_hms(2026, 9, 1, 0, 0, 0).unwrap());
    assert!(is_dtla_future(&session("1701", "2026-09-05T23:00:00"), now));
}

#[test]
fn non_dtla_session_is_dropped() {
    let now = utc(Utc.with_ymd_and_hms(2026, 9, 1, 0, 0, 0).unwrap());
    assert!(!is_dtla_future(&session("9999", "2026-09-05T23:00:00"), now));
}

#[test]
fn past_dtla_session_is_dropped() {
    // now is AFTER the showtime
    let now = utc(Utc.with_ymd_and_hms(2026, 9, 6, 0, 0, 0).unwrap());
    assert!(!is_dtla_future(&session("1701", "2026-09-05T23:00:00"), now));
}

// --- further cases ---

#[test]
fn session_at_exactly_now_is_not_future() {
    let now = utc(Utc.with_ymd_and_hms(2026, 9, 5, 23, 0, 0).unwrap());
    assert!(!is_dtla_future(&session("1701", "2026-09-05T23:00:00"), now));
    // Half a second before the showtime it still counts as future.
    let just_before = UtcTime { secs: now.secs - 1, nanos: 500_000_000 };
    assert!(is_dtla_future(&session("1701", "2026-09-05T23:00:00"), just_before));
}

#[test]
fn unparseable_utc_time_is_dropped() {
    let now = utc(Utc.with_ymd_and_hms(2026, 9, 1, 0, 0, 0).unwrap());
    assert!(!is_dtla_future(&session("1701", "2026-09-05T23:00:00Z"), now));
    assert!(!is_dtla_future(&session("1701", "soon"), now));
}

#[test]
fn cinema_id_must_match_exactly() {
    let now = utc(Utc.with_ymd_and_hms(2026, 9, 1, 0, 0, 0).unwrap());
    assert!(!is_dtla_future(&session("17010", "2026-09-05T23:00:00"), now));
    assert!(!is_dtla_future(&session(" 1701", "2026-09-05T23:00:00"), now));
}
