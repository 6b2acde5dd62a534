// presentation_url: show and event pages scoped to the DTLA cinema.
use alamo::{presentation_url, Film, DTLA_CINEMA_ID};

fn film(slug: &str, is_event: bool) -> Film {
    Film { slug: slug.to_string(), title: slug.to_string(), hero_uri: String::new(), is_event }
}

#[test]
fn builds_show_and_event_urls() {
    let show = film("tony", false);
    assert_eq!(presentation_url(&show), "https://drafthouse.com/los-angeles/show/tony?cinemaId=1701");

    let event = film("the-twilight-saga-twilight-2008-fan-event", true);
    assert_eq!(
        presentation_url(&event),
        "https://drafthouse.com/event/the-twilight-saga-twilight-2008-fan-event?cinemaId=1701"
    );
}

#[test]
fn dtla_cinema_id_is_1701() {
    assert_eq!(DTLA_CINEMA_ID, "1701");
}
