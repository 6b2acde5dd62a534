// group_by_date, building and sorting per-film schedules.
use alamo::{group_by_date, sort_films, Film, FilmSchedule, Session, UtcTime};
use chrono::{DateTime, TimeZone, Utc};

fn utc(t: DateTime<Utc>) -> UtcTime {
    UtcTime { secs: t.timestamp(), nanos: t.timestamp_subsec_nanos() }
}

fn session(clt: &str, date: &str) -> Session {
    Session {
        presentation_slug: "ernie-emma".to_string(),
        cinema_id: "1701".to_string(),
        show_time_clt: clt.to_string(),
        show_time_utc: format!("{clt}Z-ignored"), // unused by group_by_date
        business_date_clt: date.to_string(),
    }
}

#[test]
fn groups_by_date_ascending_with_times_sorted() {
    // Deliberately unordered input across two days.
    let sessions = vec![
        session("2026-09-06T19:30:00", "2026-09-06"),
        session("2026-09-05T16:00:00", "2026-09-05"),
        session("2026-09-05T09:15:00", "2026-09-05"),
        session("2026-09-06T12:00:00", "2026-09-06"),
    ];
    let grouped = group_by_date(&sessions);
    assert_eq!(
        grouped,
        vec![
            (
                "2026-09-05".to_string(),
                vec!["2026-09-05T09:15:00".to_string(), "2026-09-05T16:00:00".to_string()]
            ),
            (
                "2026-09-06".to_string(),
                vec!["2026-09-06T12:00:00".to_string(), "2026-09-06T19:30:00".to_string()]
            ),
        ]
    );
}

// --- further cases ---

fn film(slug: &str, title: &str) -> Film {
    Film {
        slug: slug.to_string(),
        title: title.to_string(),
        hero_uri: format!("https://img/{slug}.jpg"),
        is_event: false,
    }
}

fn dtla(clt: &str, utc_time: &str, date: &str) -> Session {
    Session {
        presentation_slug: "ernie-emma".to_string(),
        cinema_id: "1701".to_string(),
        show_time_clt: clt.to_string(),
        show_time_utc: utc_time.to_string(),
        business_date_clt: date.to_string(),
    }
}

#[test]
fn grouping_keeps_duplicate_times_and_every_session() {
    let sessions = vec![
        session("2026-09-05T16:00:00", "2026-09-05"),
        session("2026-09-05T16:00:00", "2026-09-05"),
        session("2026-09-04T10:00:00", "2026-09-04"),
    ];
    let grouped = group_by_date(&sessions);
    assert_eq!(grouped.len(), 2);
    assert_eq!(grouped[0].0, "2026-09-04");
    assert_eq!(grouped[1].1, vec!["2026-09-05T16:00:00".to_string(); 2]);
    let total: usize = grouped.iter().map(|(_, t)| t.len()).sum();
    assert_eq!(total, sessions.len());
}

#[test]
fn grouping_no_sessions_gives_no_days() {
    assert!(group_by_date(&[]).is_empty());
}

#[test]
fn build_keeps_future_dtla_sessions_and_finds_the_earliest() {
    let now = utc(Utc.with_ymd_and_hms(2026, 9, 5, 0, 0, 0).unwrap());
    let mut other_cinema = dtla("2026-09-05T08:00:00", "2026-09-05T15:00:00", "2026-09-05");
    other_cinema.cinema_id = "9999".to_string();
    let sessions = vec![
        dtla("2026-09-06T19:00:00", "2026-09-07T02:00:00", "2026-09-06"),
        dtla("2026-09-04T19:00:00", "2026-09-05T02:00:00", "2026-09-04"), // 02:00 UTC on the 5th: future
        dtla("2026-09-03T19:00:00", "2026-09-04T02:00:00", "2026-09-03"), // past
        other_cinema,
        dtla("2026-09-05T16:00:00", "2026-09-05T23:00:00", "2026-09-05"),
    ];
    let fs = FilmSchedule::build(film("ernie-emma", "Ernie & Emma"), &sessions, now).unwrap();
    assert_eq!(fs.film.slug, "ernie-emma");
    assert_eq!(fs.earliest, utc(Utc.with_ymd_and_hms(2026, 9, 5, 2, 0, 0).unwrap()));
    let dates: Vec<&str> = fs.dates.iter().map(|(d, _)| d.as_str()).collect();
    assert_eq!(dates, vec!["2026-09-04", "2026-09-05", "2026-09-06"]);
}

#[test]
fn build_drops_a_film_without_future_dtla_sessions() {
    let now = utc(Utc.with_ymd_and_hms(2026, 9, 10, 0, 0, 0).unwrap());
    let sessions = vec![dtla("2026-09-05T16:00:00", "2026-09-05T23:00:00", "2026-09-05")];
    assert!(FilmSchedule::build(film("ernie-emma", "Ernie & Emma"), &sessions, now).is_none());
    assert!(FilmSchedule::build(film("ernie-emma", "Ernie & Emma"), &[], now).is_none());
}

fn schedule(slug: &str, earliest: DateTime<Utc>) -> FilmSchedule {
    FilmSchedule { film: film(slug, slug), dates: Vec::new(), earliest: utc(earliest) }
}

#[test]
fn sorts_films_soonest_first_keeping_ties_in_order() {
    let sep = Utc.with_ymd_and_hms(2026, 9, 5, 23, 0, 0).unwrap();
    let dec = Utc.with_ymd_and_hms(2026, 12, 17, 23, 0, 0).unwrap();
    let mut films = vec![
        schedule("avengers-doomsday", dec),
        schedule("ernie-emma", sep),
        schedule("tie-a", dec),
        schedule("tie-b", sep),
    ];
    sort_films(&mut films);
    let order: Vec<&str> = films.iter().map(|f| f.film.slug.as_str()).collect();
    assert_eq!(order, vec!["ernie-emma", "tie-b", "avengers-doomsday", "tie-a"]);
}

#[test]
fn sorting_orders_by_subsecond_too() {
    let mut films = vec![
        FilmSchedule { film: film("b", "b"), dates: Vec::new(), earliest: UtcTime { secs: 10, nanos: 5 } },
        FilmSchedule { film: film("a", "a"), dates: Vec::new(), earliest: UtcTime { secs: 10, nanos: 1 } },
        FilmSchedule { film: film("c", "c"), dates: Vec::new(), earliest: UtcTime { secs: -3, nanos: 0 } },
    ];
    sort_films(&mut films);
    let order: Vec<&str> = films.iter().map(|f| f.film.slug.as_str()).collect();
    assert_eq!(order, vec!["c", "a", "b"]);
}

#[test]
fn grouping_is_the_same_for_any_input_order() {
    let a = vec![
        session("2026-09-06T19:30:00", "2026-09-06"),
        session("2026-09-05T16:00:00", "2026-09-05"),
        session("2026-09-05T09:15:00", "2026-09-05"),
    ];
    let b = vec![a[2].clone(), a[0].clone(), a[1].clone()];
    assert_eq!(group_by_date(&a), group_by_date(&b));
}

#[test]
fn earliest_showtime_is_after_now() {
    let now = utc(Utc.with_ymd_and_hms(2026, 9, 5, 23, 0, 0).unwrap());
    let sessions = vec![
        dtla("2026-09-05T16:00:00", "2026-09-05T23:00:00", "2026-09-05"), // exactly now: dropped
        dtla("2026-09-05T16:00:01", "2026-09-05T23:00:01", "2026-09-05"),
    ];
    let fs = FilmSchedule::build(film("ernie-emma", "Ernie & Emma"), &sessions, now).unwrap();
    assert_eq!(fs.earliest, UtcTime { secs: now.secs + 1, nanos: 0 });
    assert_eq!(fs.dates, vec![("2026-09-05".to_string(), vec!["2026-09-05T16:00:01".to_string()])]);
}

#[test]
fn sorts_films_by_earliest_showtime_avengers_last() {
    let now = utc(Utc.with_ymd_and_hms(2026, 8, 1, 0, 0, 0).unwrap());
    let mut ernie_sessions = Vec::new();
    for day in 4..=10 {
        ernie_sessions.push(dtla(
            &format!("2026-09-{day:02}T16:00:00"),
            &format!("2026-09-{day:02}T23:00:00"),
            &format!("2026-09-{day:02}"),
        ));
    }
    let avengers_sessions = vec![dtla("2026-12-17T19:00:00", "2026-12-18T03:00:00", "2026-12-17")];
    let ernie = FilmSchedule::build(film("ernie-emma", "Ernie & Emma"), &ernie_sessions, now)
        .expect("film has future DTLA sessions");
    let avengers = FilmSchedule::build(film("avengers-doomsday", "Avengers: Doomsday"), &avengers_sessions, now)
        .expect("film has future DTLA sessions");

    // Insert in the "wrong" order to prove sorting does the work.
    let mut films = vec![avengers, ernie];
    alamo::sort_films(&mut films);

    assert_eq!(films[0].film.slug, "ernie-emma", "September film sorts first");
    assert_eq!(films[1].film.slug, "avengers-doomsday", "December film sorts last");

    // ernie-emma spans 7 DTLA dates (2026-09-04 .. 2026-09-10).
    let ernie_dates: Vec<&str> = films[0].dates.iter().map(|(d, _)| d.as_str()).collect();
    assert_eq!(
        ernie_dates,
        vec![
            "2026-09-04", "2026-09-05", "2026-09-06", "2026-09-07", "2026-09-08", "2026-09-09",
            "2026-09-10"
        ]
    );
}

#[test]
fn sorts_part_of_a_slice_in_place() {
    let t = |s: i64| FilmSchedule { film: film(&s.to_string(), "x"), dates: Vec::new(), earliest: UtcTime { secs: s, nanos: 0 } };
    let mut films = vec![t(9), t(3), t(2), t(1)];
    sort_films(&mut films[1..]);
    let order: Vec<i64> = films.iter().map(|f| f.earliest.secs).collect();
    assert_eq!(order, vec![9, 1, 2, 3]);
}

#[test]
fn a_dropped_session_leaves_no_trace() {
    let now = utc(Utc.with_ymd_and_hms(2026, 9, 1, 0, 0, 0).unwrap());
    let kept = vec![
        dtla("2026-09-05T16:00:00", "2026-09-05T23:00:00", "2026-09-05"),
        dtla("2026-09-06T16:00:00", "2026-09-06T23:00:00", "2026-09-06"),
    ];
    let mut elsewhere = dtla("2026-09-02T08:00:00", "2026-09-02T15:00:00", "2026-09-02");
    elsewhere.cinema_id = "9999".to_string();
    let mut with_extra = kept.clone();
    with_extra.insert(1, elsewhere);
    with_extra.insert(0, dtla("2026-08-30T16:00:00", "2026-08-30T23:00:00", "2026-08-30")); // past
    let a = FilmSchedule::build(film("ernie-emma", "Ernie & Emma"), &kept, now).unwrap();
    let b = FilmSchedule::build(film("ernie-emma", "Ernie & Emma"), &with_extra, now).unwrap();
    assert_eq!(a.dates, b.dates);
    assert_eq!(a.earliest, b.earliest);
}
