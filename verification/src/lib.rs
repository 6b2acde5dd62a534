//! Turns the Alamo Drafthouse market schedule into a static HTML page of
//! upcoming showtimes at the DTLA cinema: films with future DTLA sessions,
//! soonest first, each with its showtimes grouped by day for the page's
//! toggle app, plus a four-week calendar of which films play when.
//!
//! Reading the feed and printing the page happen outside this library; it
//! takes the feed's films and sessions as values.

pub mod calendar;
pub mod clock;
pub mod grouping;
pub mod json;
pub mod order;
pub mod page;
pub mod schedule;
pub mod text;

pub use calendar::{build_calendar, CalendarDay};
pub use clock::{fmt_date, fmt_time, UtcTime};
pub use grouping::group_by_date;
pub use page::{build_page, build_page_with_app, render_page, render_page_with_app};
pub use schedule::{
    is_dtla_future, presentation_url, sort_films, Film, FilmSchedule, Session, DTLA_CINEMA_ID,
};
pub use text::{error_chain, html_escape};
