// build_page: the pipeline over a market feed's films and sessions.
use alamo::{build_page, Film, Session, UtcTime};
use chrono::{DateTime, TimeZone, Utc};

fn utc(t: DateTime<Utc>) -> UtcTime {
    UtcTime { secs: t.timestamp(), nanos: t.timestamp_subsec_nanos() }
}

fn film(slug: &str, title: &str) -> Film {
    Film {
        slug: slug.to_string(),
        title: title.to_string(),
        hero_uri: format!("https://img/{slug}.jpg"),
        is_event: false,
    }
}

fn session(slug: &str, cinema: &str, clt: &str, utc_time: &str) -> Session {
    Session {
        presentation_slug: slug.to_string(),
        cinema_id: cinema.to_string(),
        show_time_clt: clt.to_string(),
        show_time_utc: utc_time.to_string(),
        business_date_clt: clt[..10].to_string(),
    }
}

fn market() -> (Vec<Film>, Vec<Session>) {
    let films = vec![
        film("avengers-doomsday", "Avengers: Doomsday"),
        film("practical-magic-2", "Practical Magic 2"),
        film("spider-man-brand-new-day", "Spider-Man: Brand New Day"),
        film("elsewhere-only", "Elsewhere Only"),
    ];
    let sessions = vec![
        session("avengers-doomsday", "1701", "2026-12-17T19:00:00", "2026-12-18T03:00:00"),
        session("spider-man-brand-new-day", "1701", "2026-09-01T19:00:00", "2026-09-02T02:00:00"),
        session("practical-magic-2", "1701", "2026-09-18T19:00:00", "2026-09-19T02:00:00"),
        session("elsewhere-only", "9999", "2026-09-10T19:00:00", "2026-09-11T02:00:00"),
        session("spider-man-brand-new-day", "1701", "2026-09-03T19:00:00", "2026-09-04T02:00:00"),
    ];
    (films, sessions)
}

/// A synthetic market: 64 presentations, each with one future DTLA session.
fn full_market() -> (Vec<Film>, Vec<Session>) {
    let mut films = Vec::new();
    let mut sessions = Vec::new();
    for i in 0..64u32 {
        let (slug, title) = match i {
            0 => ("practical-magic-2".to_string(), "Practical Magic 2".to_string()),
            1 => ("it-ends".to_string(), "It Ends".to_string()),
            _ => (format!("film-{i}"), format!("Film {i}")),
        };
        let day = 1 + i % 28;
        sessions.push(session(
            &slug,
            "1701",
            &format!("2026-09-{day:02}T19:00:00"),
            &format!("2026-09-{:02}T02:00:00", day + 1),
        ));
        films.push(film(&slug, &title));
    }
    (films, sessions)
}

#[test]
fn renders_every_film_in_the_market_feed() {
    let (films, sessions) = full_market();
    let now = utc(Utc.with_ymd_and_hms(2026, 8, 1, 0, 0, 0).unwrap()); // before all sessions

    let html = build_page(films, &sessions, now);

    // One entry per presentation with future DTLA sessions in the container's flags.
    assert!(html.contains("<div id=\"app\" data-flags=\""), "container mount present");
    let films = html.matches("&quot;id&quot;:&quot;").count();
    assert_eq!(films, 64, "every market presentation appears in the flags");

    assert!(html.contains("Practical Magic 2"), "non-featured film present");
    assert!(html.contains("It Ends"), "non-featured film present");
}

#[test]
fn orders_films_soonest_first() {
    let (films, sessions) = market();
    let now = utc(Utc.with_ymd_and_hms(2026, 8, 1, 0, 0, 0).unwrap());

    let html = build_page(films, &sessions, now);

    // Spider-Man's earliest DTLA showtime (Sep 1) precedes Avengers' (Dec 17).
    let spidey = html.find("Spider-Man: Brand New Day").expect("spider-man present");
    let avengers = html.find("Avengers: Doomsday").expect("avengers present");
    assert!(spidey < avengers, "September film sorts before December film");

    // The cards follow the same order, with the film that plays elsewhere dropped.
    assert!(!html.contains("Elsewhere Only"), "film with no DTLA session is dropped");
    let spidey = html.find("<h2><a href=\"https://drafthouse.com/los-angeles/show/spider-man").unwrap();
    let magic = html.find("<h2><a href=\"https://drafthouse.com/los-angeles/show/practical-magic").unwrap();
    let avengers = html.find("<h2><a href=\"https://drafthouse.com/los-angeles/show/avengers").unwrap();
    assert!(spidey < magic && magic < avengers);
}

#[test]
fn far_future_now_drops_all_past_sessions() {
    let (films, sessions) = market();
    let now = utc(Utc.with_ymd_and_hms(2028, 1, 1, 0, 0, 0).unwrap()); // after everything

    let html = build_page(films, &sessions, now);
    assert!(html.contains("&quot;films&quot;:[]"), "flags carry no films when all sessions are past");
    assert!(!html.contains("<article"));
}

#[test]
fn embeds_the_app_script_after_the_mounts() {
    let (films, sessions) = market();
    let now = utc(Utc.with_ymd_and_hms(2026, 8, 1, 0, 0, 0).unwrap());
    let html = alamo::build_page_with_app(films, &sessions, now, "var app = 1;");
    let script = html.find("<script>\nvar app = 1;\n</script>\n</body>").expect("script embedded");
    let last_mount = html.rfind("class=\"film-toggle\"").unwrap();
    assert!(last_mount < script);
    let (films, sessions) = market();
    assert!(!build_page(films, &sessions, now).contains("<script>"), "no script when none is given");
}

#[test]
fn a_film_with_only_past_sessions_is_dropped() {
    let (films, sessions) = market();
    let now = utc(Utc.with_ymd_and_hms(2026, 10, 1, 0, 0, 0).unwrap());
    let html = build_page(films, &sessions, now);
    assert!(html.contains("Avengers: Doomsday"));
    assert!(!html.contains("Spider-Man"));
    assert!(!html.contains("Practical Magic"));
}

#[test]
fn a_later_now_only_drops_cards() {
    // The slugs of the films with a card on the page built at `at`, in card order.
    let carded = |at: DateTime<Utc>| -> Vec<String> {
        let (films, sessions) = market();
        let html = build_page(films, &sessions, utc(at));
        let mut found: Vec<(usize, String)> = ["avengers-doomsday", "practical-magic-2", "spider-man-brand-new-day", "elsewhere-only"]
            .iter()
            .filter_map(|slug| {
                html.find(&format!("<h2><a href=\"https://drafthouse.com/los-angeles/show/{slug}"))
                    .map(|at| (at, slug.to_string()))
            })
            .collect();
        found.sort();
        assert_eq!(found.len(), html.matches("<article").count());
        found.into_iter().map(|(_, slug)| slug).collect()
    };
    let early = carded(Utc.with_ymd_and_hms(2026, 8, 1, 0, 0, 0).unwrap());
    let middle = carded(Utc.with_ymd_and_hms(2026, 9, 10, 0, 0, 0).unwrap());
    let late = carded(Utc.with_ymd_and_hms(2026, 10, 1, 0, 0, 0).unwrap());
    assert_eq!(early, vec!["spider-man-brand-new-day", "practical-magic-2", "avengers-doomsday"]);
    assert_eq!(middle, vec!["practical-magic-2", "avengers-doomsday"]);
    assert_eq!(late, vec!["avengers-doomsday"]);
    for slug in &late {
        assert!(middle.contains(slug) && early.contains(slug));
    }
    for slug in &middle {
        assert!(early.contains(slug));
    }
}
