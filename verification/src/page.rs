//! The HTML page: a card per film with a mount for the showtime toggle app,
//! and the page-level data for the app.

use vstd::prelude::*;

use crate::clock::{fmt_date, fmt_time, shown_date, shown_time, UtcTime};
use crate::grouping::strs;
use crate::json::{json_text, push_json_text};
use crate::order::str_eq;
use crate::schedule::{
    copy_session, film_url, future_sessions, is_schedule_for, is_stable_sort_by_earliest,
    lemma_positions_cover, presentation_url, sort_films,
    stably_sorted_by_earliest, Film, FilmSchedule, Session,
};
use crate::text::{
    char_count, html_escape, html_escaped, is_markup_char, joined, lemma_char_count_add,
    lemma_escaped_markup_free, lemma_joined_take,
};

verus! {

/// The start of the page, up to its stylesheet.
pub const PAGE_TOP: &'static str = "<!doctype html>\n<html lang=\"en\">\n<head>\n<meta charset=\"utf-8\">\n<meta name=\"viewport\" content=\"width=device-width, initial-scale=1\">\n<title>Alamo Drafthouse DTLA — Upcoming Showtimes</title>\n<style>\n";

/// The page's stylesheet.
pub const STYLE: &'static str = "
  :root { color-scheme: light; }
  body { font-family: system-ui, -apple-system, Segoe UI, Roboto, sans-serif;
         margin: 0 auto; padding: 1.5rem 1rem; line-height: 1.4;
         color: #1a1a1a; background: #fff; }
  h1 { font-size: 1.6rem; margin: 0 0 1.5rem; }
  .film { display: grid; grid-template-columns: 1fr 1fr; gap: 1rem 1.25rem;
          align-items: start; margin: 0 0 2.5rem; }
  .film-main { min-width: 0; }
  .hero-link { display: block; }
  .hero { display: block; width: 100%; max-width: 100%; height: auto;
          border-radius: 8px; background: #eee; }
  .film h2 { font-size: 1.25rem; margin: 0 0 0.5rem; }
  .film h2 a { color: inherit; text-decoration: none; }
  .rt { font-size: 0.9rem; }
  .day { display: grid; grid-template-columns: 6.5rem 1fr; align-items: baseline;
         gap: 0.4rem 0.6rem; }
  .date { color: #444; }
  .times { display: flex; flex-wrap: wrap; gap: 0.4rem; }
  .time { display: inline-block; padding: 0.15rem 0.5rem; border: 1px solid #ccc;
          border-radius: 4px; font-variant-numeric: tabular-nums; white-space: nowrap; }
";

/// From the end of the stylesheet to the first card.
pub const PAGE_HEAD_END: &'static str = "</style>\n</head>\n<body>\n<h1>Alamo Drafthouse DTLA — Upcoming Showtimes</h1>\n";

/// The end of the page.
pub const PAGE_END: &'static str = "</body>\n</html>\n";

/// The JSON of one day of a film's showtimes: the business date, its label,
/// the film's page for that date, and the labels of the day's showtimes.
pub open spec fn day_json(f: Film, day: (String, Vec<String>)) -> Seq<char> {
    "{\"date\":"@ + json_text(day.0@)
        + ",\"label\":"@ + json_text(shown_date(day.0@))
        + ",\"href\":"@ + json_text(film_url(f) + "&date="@ + day.0@)
        + ",\"times\":["@ + joined(strs(day.1@).map_values(|t: Seq<char>| json_text(shown_time(t))), ","@)
        + "]}"@
}

/// The JSON handed to a film's showtime toggle: its days in order.
pub open spec fn film_flags(fs: FilmSchedule) -> Seq<char> {
    "{\"days\":["@ + joined(fs.dates@.map_values(|d: (String, Vec<String>)| day_json(fs.film, d)), ","@) + "]}"@
}

/// The page-level JSON entry of a film: its id (slug), title, page and dates.
pub open spec fn film_entry(fs: FilmSchedule) -> Seq<char> {
    "{\"id\":"@ + json_text(fs.film.slug@)
        + ",\"title\":"@ + json_text(fs.film.title@)
        + ",\"url\":"@ + json_text(film_url(fs.film))
        + ",\"dates\":["@ + joined(fs.dates@.map_values(|d: (String, Vec<String>)| json_text(d.0@)), ","@)
        + "]}"@
}

/// The page-level JSON: every film, in page order.
pub open spec fn page_flags(films: Seq<FilmSchedule>) -> Seq<char> {
    "{\"films\":["@ + joined(films.map_values(|fs: FilmSchedule| film_entry(fs)), ","@) + "]}"@
}

/// The HTML card of one film: the hero image linking to the film's page, then
/// a column with the linked title, a Rotten Tomatoes search link and the
/// mount of the film's showtime toggle carrying its data.
pub open spec fn film_card(fs: FilmSchedule) -> Seq<char> {
    "<article class=\"film\">\n  <a class=\"hero-link\" href=\""@ + html_escaped(film_url(fs.film))
        + "\" target=\"_blank\" rel=\"noopener\"><img class=\"hero\" src=\""@ + html_escaped(fs.film.hero_uri@)
        + "\" alt=\""@ + html_escaped(fs.film.title@)
        + "\" loading=\"lazy\"></a>\n  <div class=\"film-main\">\n    <h2><a href=\""@ + html_escaped(film_url(fs.film))
        + "\" target=\"_blank\" rel=\"noopener\">"@ + html_escaped(fs.film.title@)
        + "</a></h2>\n    <a class=\"rt\" href=\"https://www.rottentomatoes.com/search?search="@ + html_escaped(fs.film.slug@)
        + "\" target=\"_blank\" rel=\"noopener\">check rotten tomatoes</a>\n    <div class=\"film-toggle\" data-flags=\""@
        + html_escaped(film_flags(fs))
        + "\"></div>\n  </div>\n</article>\n"@
}

/// The cards of the films, in order.
pub open spec fn cards(films: Seq<FilmSchedule>) -> Seq<char>
    decreases films.len(),
{
    if films.len() == 0 {
        Seq::empty()
    } else {
        cards(films.drop_last()) + film_card(films.last())
    }
}

/// The element that runs the toggle app's script, placed after the mounts;
/// nothing when there is no script. The script text goes in as given.
pub open spec fn app_script_tag(script: Seq<char>) -> Seq<char> {
    if script.len() == 0 {
        Seq::empty()
    } else {
        "<script>\n"@ + script + "\n</script>\n"@
    }
}

/// The whole page for the given films, running the given app script.
pub open spec fn page_with_app(films: Seq<FilmSchedule>, script: Seq<char>) -> Seq<char> {
    PAGE_TOP@ + STYLE@ + PAGE_HEAD_END@
        + "<div id=\"app\" data-flags=\""@ + html_escaped(page_flags(films)) + "\"></div>\n"@
        + cards(films)
        + app_script_tag(script)
        + PAGE_END@
}

/// The whole page for the given films, without an app script.
pub open spec fn page(films: Seq<FilmSchedule>) -> Seq<char> {
    page_with_app(films, Seq::empty())
}

/// A day without showtimes lists no times: its JSON ends in an empty list.
pub proof fn lemma_day_json_without_showtimes(f: Film, day: (String, Vec<String>))
    requires
        day.1@.len() == 0,
    ensures
        day_json(f, day).len() >= 12,
        day_json(f, day).skip(day_json(f, day).len() - 12) == ",\"times\":[]}"@,
{
    reveal_strlit(",\"times\":[]}");
    reveal_strlit(",\"times\":[");
    reveal_strlit("]}");
    let head = "{\"date\":"@ + json_text(day.0@)
        + ",\"label\":"@ + json_text(shown_date(day.0@))
        + ",\"href\":"@ + json_text(film_url(f) + "&date="@ + day.0@);
    let labels = strs(day.1@).map_values(|t: Seq<char>| json_text(shown_time(t)));
    assert(labels.len() == 0);
    assert(joined(labels, ","@) =~= Seq::<char>::empty());
    assert(day_json(f, day) =~= head + ",\"times\":[]}"@);
}

/// Each showtime of a day is listed, in order: adding a showtime at the end
/// of a day adds its label, after a comma when the day already had times,
/// at the end of the day's list of times and changes nothing else.
pub proof fn lemma_day_json_lists_each_showtime(
    f: Film,
    day: (String, Vec<String>),
    more: (String, Vec<String>),
    t: String,
)
    requires
        more.0@ == day.0@,
        more.1@ == day.1@.push(t),
    ensures
        day_json(f, day).len() >= 2,
        day_json(f, more) == day_json(f, day).take(day_json(f, day).len() - 2)
            + (if day.1@.len() > 0 { ","@ } else { Seq::<char>::empty() })
            + json_text(shown_time(t@)) + "]}"@,
{
    reveal_strlit("]}");
    reveal_strlit(",");
    let head = "{\"date\":"@ + json_text(day.0@)
        + ",\"label\":"@ + json_text(shown_date(day.0@))
        + ",\"href\":"@ + json_text(film_url(f) + "&date="@ + day.0@)
        + ",\"times\":["@;
    let lab = |x: Seq<char>| json_text(shown_time(x));
    let labels = strs(day.1@).map_values(lab);
    let labels2 = strs(more.1@).map_values(lab);
    assert(strs(more.1@) =~= strs(day.1@).push(t@));
    assert(labels2 =~= labels.push(json_text(shown_time(t@))));
    assert(labels2.drop_last() =~= labels);
    let x = json_text(shown_time(t@));
    if labels.len() == 0 {
        assert(joined(labels2, ","@) == x);
        assert(joined(labels, ","@) =~= Seq::<char>::empty());
    } else {
        assert(joined(labels2, ","@) == joined(labels, ","@) + ","@ + x);
    }
    assert(day_json(f, day) =~= head + joined(labels, ","@) + "]}"@);
    assert(day_json(f, more) =~= head + joined(labels2, ","@) + "]}"@);
    assert(day_json(f, day).take(day_json(f, day).len() - 2) =~= head + joined(labels, ","@));
}

/// A list closed by `]}` that gets one more item: the item goes before the
/// closing brackets, after a comma when the list was not empty.
proof fn lemma_closed_list_push(head: Seq<char>, items: Seq<Seq<char>>, x: Seq<char>)
    ensures
        (head + joined(items, ","@) + "]}"@).len() >= 2,
        head + joined(items.push(x), ","@) + "]}"@
            == (head + joined(items, ","@) + "]}"@).take((head + joined(items, ","@) + "]}"@).len() - 2)
            + (if items.len() > 0 { ","@ } else { Seq::<char>::empty() }) + x + "]}"@,
{
    reveal_strlit("]}");
    reveal_strlit(",");
    assert(items.push(x).drop_last() =~= items);
    if items.len() == 0 {
        assert(joined(items.push(x), ","@) == x);
        assert(joined(items, ","@) =~= Seq::<char>::empty());
    } else {
        assert(joined(items.push(x), ","@) == joined(items, ","@) + ","@ + x);
    }
    let a = head + joined(items, ","@) + "]}"@;
    assert(a.take(a.len() - 2) =~= head + joined(items, ","@));
    assert(head + joined(items.push(x), ","@) + "]}"@ =~= a.take(a.len() - 2)
        + (if items.len() > 0 { ","@ } else { Seq::<char>::empty() }) + x + "]}"@);
}

/// Each day of a film is handed to its showtime toggle, in order: adding a
/// day at the end of a film's dates adds that day's JSON, after a comma when
/// the film already had days, at the end of its list of days.
pub proof fn lemma_film_flags_list_each_day(fs: FilmSchedule, more: FilmSchedule, day: (String, Vec<String>))
    requires
        more.film == fs.film,
        more.dates@ == fs.dates@.push(day),
    ensures
        film_flags(fs).len() >= 2,
        film_flags(more) == film_flags(fs).take(film_flags(fs).len() - 2)
            + (if fs.dates@.len() > 0 { ","@ } else { Seq::<char>::empty() })
            + day_json(fs.film, day) + "]}"@,
{
    let dj = |d: (String, Vec<String>)| day_json(fs.film, d);
    assert(more.dates@.map_values(dj) =~= fs.dates@.map_values(dj).push(day_json(fs.film, day)));
    lemma_closed_list_push("{\"days\":["@, fs.dates@.map_values(dj), day_json(fs.film, day));
}

/// Each film is listed in the page-level data, in order: adding a film at the
/// end adds its entry, after a comma when there were films already, at the
/// end of the list of films.
pub proof fn lemma_page_flags_list_each_film(films: Seq<FilmSchedule>, fs: FilmSchedule)
    ensures
        page_flags(films).len() >= 2,
        page_flags(films.push(fs)) == page_flags(films).take(page_flags(films).len() - 2)
            + (if films.len() > 0 { ","@ } else { Seq::<char>::empty() })
            + film_entry(fs) + "]}"@,
{
    let fe = |x: FilmSchedule| film_entry(x);
    assert(films.push(fs).map_values(fe) =~= films.map_values(fe).push(film_entry(fs)));
    lemma_closed_list_push("{\"films\":["@, films.map_values(fe), film_entry(fs));
}

/// Each date of a film is listed in its page-level entry, in order: adding a
/// day at the end of a film's dates adds the JSON text of its date at the end
/// of the entry's list of dates.
pub proof fn lemma_film_entry_lists_each_date(fs: FilmSchedule, more: FilmSchedule, day: (String, Vec<String>))
    requires
        more.film == fs.film,
        more.dates@ == fs.dates@.push(day),
    ensures
        film_entry(fs).len() >= 2,
        film_entry(more) == film_entry(fs).take(film_entry(fs).len() - 2)
            + (if fs.dates@.len() > 0 { ","@ } else { Seq::<char>::empty() })
            + json_text(day.0@) + "]}"@,
{
    let dt = |d: (String, Vec<String>)| json_text(d.0@);
    assert(more.dates@.map_values(dt) =~= fs.dates@.map_values(dt).push(json_text(day.0@)));
    let head = "{\"id\":"@ + json_text(fs.film.slug@)
        + ",\"title\":"@ + json_text(fs.film.title@)
        + ",\"url\":"@ + json_text(film_url(fs.film))
        + ",\"dates\":["@;
    lemma_closed_list_push(head, fs.dates@.map_values(dt), json_text(day.0@));
}

/// The page holds one card per film, in film order: the cards of two lists
/// of films put together are the cards of the first list then those of the
/// second, and the cards of a single film are that film's card.
pub proof fn lemma_cards_one_per_film(a: Seq<FilmSchedule>, b: Seq<FilmSchedule>, x: FilmSchedule)
    ensures
        cards(a + b) == cards(a) + cards(b),
        cards(seq![x]) == film_card(x),
    decreases b.len(),
{
    let one = seq![x];
    assert(one.drop_last() =~= Seq::<FilmSchedule>::empty());
    assert(one.last() == x);
    assert(cards(one.drop_last()) =~= Seq::<char>::empty());
    assert(cards(one) =~= film_card(x));
    if b.len() == 0 {
        assert(a + b =~= a);
        assert(cards(b) =~= Seq::<char>::empty());
        assert(cards(a) + cards(b) =~= cards(a));
    } else {
        lemma_cards_one_per_film(a, b.drop_last(), x);
        assert((a + b).drop_last() =~= a + b.drop_last());
        assert((a + b).last() == b.last());
        assert(cards(a + b) =~= cards(a) + cards(b));
    }
}

/// Every card holds the same number of each markup character: only fixed
/// text can open or close a tag or an attribute value.
proof fn lemma_card_markup_fixed(a: FilmSchedule, b: FilmSchedule, c: char)
    requires
        is_markup_char(c),
    ensures
        char_count(film_card(a), c) == char_count(film_card(b), c),
{
    assert forall|x: Seq<char>, y: Seq<char>| #[trigger] char_count(x + y, c) == char_count(x, c) + char_count(y, c) by {
        lemma_char_count_add(x, y, c);
    }
    lemma_escaped_markup_free(film_url(a.film), c);
    lemma_escaped_markup_free(a.film.hero_uri@, c);
    lemma_escaped_markup_free(a.film.title@, c);
    lemma_escaped_markup_free(a.film.slug@, c);
    lemma_escaped_markup_free(film_flags(a), c);
    lemma_escaped_markup_free(film_url(b.film), c);
    lemma_escaped_markup_free(b.film.hero_uri@, c);
    lemma_escaped_markup_free(b.film.title@, c);
    lemma_escaped_markup_free(b.film.slug@, c);
    lemma_escaped_markup_free(film_flags(b), c);
}

proof fn lemma_cards_markup_fixed(a: Seq<FilmSchedule>, b: Seq<FilmSchedule>, c: char)
    requires
        a.len() == b.len(),
        is_markup_char(c),
    ensures
        char_count(cards(a), c) == char_count(cards(b), c),
    decreases a.len(),
{
    if a.len() > 0 {
        lemma_cards_markup_fixed(a.drop_last(), b.drop_last(), c);
        lemma_card_markup_fixed(a.last(), b.last(), c);
        lemma_char_count_add(cards(a.drop_last()), film_card(a.last()), c);
        lemma_char_count_add(cards(b.drop_last()), film_card(b.last()), c);
    }
}

/// No film data can open, close or break out of markup: two pages with the
/// same number of films hold the same number of `<`, the same number of `>`
/// and the same number of `"` characters, whatever the films' titles,
/// images, slugs, dates and showtimes.
pub proof fn lemma_page_markup_fixed(a: Seq<FilmSchedule>, b: Seq<FilmSchedule>, script: Seq<char>, c: char)
    requires
        a.len() == b.len(),
        is_markup_char(c),
    ensures
        char_count(page_with_app(a, script), c) == char_count(page_with_app(b, script), c),
{
    assert forall|x: Seq<char>, y: Seq<char>| #[trigger] char_count(x + y, c) == char_count(x, c) + char_count(y, c) by {
        lemma_char_count_add(x, y, c);
    }
    lemma_cards_markup_fixed(a, b, c);
    lemma_escaped_markup_free(page_flags(a), c);
    lemma_escaped_markup_free(page_flags(b), c);
}

/// The JSON of one day of a film's showtimes.
fn day_json_text(url: &String, day: &(String, Vec<String>)) -> (out: String)
    ensures
        forall|f: Film| film_url(f) == url@ ==> out@ == day_json(f, *day),
{
    let mut out = String::from_str("{\"date\":");
    push_json_text(&mut out, day.0.as_str());
    out.append(",\"label\":");
    let label = fmt_date(day.0.as_str());
    push_json_text(&mut out, label.as_str());
    out.append(",\"href\":");
    let mut href = url.clone();
    href.append("&date=");
    href.append(day.0.as_str());
    push_json_text(&mut out, href.as_str());
    out.append(",\"times\":[");
    let ghost head = out@;
    let ghost items = strs(day.1@).map_values(|t: Seq<char>| json_text(shown_time(t)));
    let mut i: usize = 0;
    while i < day.1.len()
        invariant
            i <= day.1@.len(),
            items == strs(day.1@).map_values(|t: Seq<char>| json_text(shown_time(t))),
            out@ == head + joined(items.take(i as int), ","@),
        decreases day.1@.len() - i,
    {
        proof {
            lemma_joined_take(items, ","@, i as int);
        }
        if i > 0 {
            out.append(",");
        }
        let label = fmt_time(day.1[i].as_str());
        push_json_text(&mut out, label.as_str());
        assert(out@ =~= head + joined(items.take(i + 1), ","@));
        i = i + 1;
    }
    out.append("]}");
    proof {
        assert(items.take(day.1@.len() as int) =~= items);
    }
    out
}

/// The JSON handed to a film's showtime toggle.
fn film_flags_text(fs: &FilmSchedule) -> (out: String)
    ensures
        out@ == film_flags(*fs),
{
    let url = presentation_url(&fs.film);
    let mut out = String::from_str("{\"days\":[");
    let ghost head = out@;
    let ghost items = fs.dates@.map_values(|d: (String, Vec<String>)| day_json(fs.film, d));
    let mut i: usize = 0;
    while i < fs.dates.len()
        invariant
            i <= fs.dates@.len(),
            url@ == film_url(fs.film),
            items == fs.dates@.map_values(|d: (String, Vec<String>)| day_json(fs.film, d)),
            out@ == head + joined(items.take(i as int), ","@),
        decreases fs.dates@.len() - i,
    {
        proof {
            lemma_joined_take(items, ","@, i as int);
        }
        if i > 0 {
            out.append(",");
        }
        let day = day_json_text(&url, &fs.dates[i]);
        out.append(day.as_str());
        assert(out@ =~= head + joined(items.take(i + 1), ","@));
        i = i + 1;
    }
    out.append("]}");
    proof {
        assert(items.take(fs.dates@.len() as int) =~= items);
    }
    out
}

/// The page-level JSON entry of a film.
fn film_entry_text(fs: &FilmSchedule) -> (out: String)
    ensures
        out@ == film_entry(*fs),
{
    let mut out = String::from_str("{\"id\":");
    push_json_text(&mut out, fs.film.slug.as_str());
    out.append(",\"title\":");
    push_json_text(&mut out, fs.film.title.as_str());
    out.append(",\"url\":");
    let url = presentation_url(&fs.film);
    push_json_text(&mut out, url.as_str());
    out.append(",\"dates\":[");
    let ghost head = out@;
    let ghost items = fs.dates@.map_values(|d: (String, Vec<String>)| json_text(d.0@));
    let mut i: usize = 0;
    while i < fs.dates.len()
        invariant
            i <= fs.dates@.len(),
            items == fs.dates@.map_values(|d: (String, Vec<String>)| json_text(d.0@)),
            out@ == head + joined(items.take(i as int), ","@),
        decreases fs.dates@.len() - i,
    {
        proof {
            lemma_joined_take(items, ","@, i as int);
        }
        if i > 0 {
            out.append(",");
        }
        push_json_text(&mut out, fs.dates[i].0.as_str());
        assert(out@ =~= head + joined(items.take(i + 1), ","@));
        i = i + 1;
    }
    out.append("]}");
    proof {
        assert(items.take(fs.dates@.len() as int) =~= items);
    }
    out
}

/// The page-level JSON of all films.
fn page_flags_text(films: &[FilmSchedule]) -> (out: String)
    ensures
        out@ == page_flags(films@),
{
    let mut out = String::from_str("{\"films\":[");
    let ghost head = out@;
    let ghost items = films@.map_values(|fs: FilmSchedule| film_entry(fs));
    let mut i: usize = 0;
    while i < films.len()
        invariant
            i <= films@.len(),
            items == films@.map_values(|fs: FilmSchedule| film_entry(fs)),
            out@ == head + joined(items.take(i as int), ","@),
        decreases films@.len() - i,
    {
        proof {
            lemma_joined_take(items, ","@, i as int);
        }
        if i > 0 {
            out.append(",");
        }
        let entry = film_entry_text(&films[i]);
        out.append(entry.as_str());
        assert(out@ =~= head + joined(items.take(i + 1), ","@));
        i = i + 1;
    }
    out.append("]}");
    proof {
        assert(items.take(films@.len() as int) =~= items);
    }
    out
}

/// Appends the HTML card of one film.
fn push_film_card(h: &mut String, fs: &FilmSchedule)
    ensures
        final(h)@ == old(h)@ + film_card(*fs),
{
    let title = html_escape(fs.film.title.as_str());
    let hero = html_escape(fs.film.hero_uri.as_str());
    let url_text = presentation_url(&fs.film);
    let url = html_escape(url_text.as_str());
    let slug = html_escape(fs.film.slug.as_str());
    let flags_text = film_flags_text(fs);
    let flags = html_escape(flags_text.as_str());
    let mut card = String::from_str("<article class=\"film\">\n  <a class=\"hero-link\" href=\"");
    card.append(url.as_str());
    card.append("\" target=\"_blank\" rel=\"noopener\"><img class=\"hero\" src=\"");
    card.append(hero.as_str());
    card.append("\" alt=\"");
    card.append(title.as_str());
    card.append("\" loading=\"lazy\"></a>\n  <div class=\"film-main\">\n    <h2><a href=\"");
    card.append(url.as_str());
    card.append("\" target=\"_blank\" rel=\"noopener\">");
    card.append(title.as_str());
    card.append("</a></h2>\n    <a class=\"rt\" href=\"https://www.rottentomatoes.com/search?search=");
    card.append(slug.as_str());
    card.append("\" target=\"_blank\" rel=\"noopener\">check rotten tomatoes</a>\n    <div class=\"film-toggle\" data-flags=\"");
    card.append(flags.as_str());
    card.append("\"></div>\n  </div>\n</article>\n");
    h.append(card.as_str());
}

/// Render the full HTML page for the given films (already filtered and sorted).
pub fn render_page(films: &[FilmSchedule]) -> (h: String)
    ensures
        h@ == page(films@),
{
    proof {
        reveal_strlit("");
    }
    render_page_with_app(films, "")
}

/// Render the full HTML page for the given films (already filtered and
/// sorted), embedding the toggle app's script after the mounts so the page is
/// self-contained.
pub fn render_page_with_app(films: &[FilmSchedule], app_script: &str) -> (h: String)
    ensures
        h@ == page_with_app(films@, app_script@),
{
    let mut h = String::from_str(PAGE_TOP);
    h.append(STYLE);
    h.append(PAGE_HEAD_END);
    h.append("<div id=\"app\" data-flags=\"");
    let flags_text = page_flags_text(films);
    let flags = html_escape(flags_text.as_str());
    h.append(flags.as_str());
    h.append("\"></div>\n");
    let ghost head = h@;
    let mut i: usize = 0;
    while i < films.len()
        invariant
            i <= films@.len(),
            h@ == head + cards(films@.take(i as int)),
        decreases films@.len() - i,
    {
        proof {
            assert(films@.take(i + 1).drop_last() =~= films@.take(i as int));
            assert(films@.take(i + 1).last() == films@[i as int]);
        }
        push_film_card(&mut h, &films[i]);
        proof {
            assert(h@ =~= head + cards(films@.take(i + 1)));
        }
        i = i + 1;
    }
    proof {
        assert(films@.take(films@.len() as int) =~= films@);
    }
    let ghost body = h@;
    if app_script.unicode_len() > 0 {
        h.append("<script>\n");
        h.append(app_script);
        h.append("\n</script>\n");
    }
    assert(h@ =~= body + app_script_tag(app_script@));
    h.append(PAGE_END);
    h
}

/// The sessions whose presentation slug is `slug`, in input order.
pub open spec fn sessions_of(s: Seq<Session>, slug: Seq<char>) -> Seq<Session>
    decreases s.len(),
{
    if s.len() == 0 {
        Seq::empty()
    } else if s.last().presentation_slug@ == slug {
        sessions_of(s.drop_last(), slug).push(s.last())
    } else {
        sessions_of(s.drop_last(), slug)
    }
}

/// A presentation is joined to every session of the feed whose presentation
/// slug is its own and to no other, in feed order: the joined sessions are
/// the feed filtered by slug, so each such session is among them and every
/// one of them carries the slug.
pub proof fn lemma_sessions_of_are_the_slug_filter(s: Seq<Session>, slug: Seq<char>)
    ensures
        sessions_of(s, slug) == s.filter(|x: Session| x.presentation_slug@ == slug),
        forall|i: int| 0 <= i < s.len() && s[i].presentation_slug@ == slug ==>
            #[trigger] sessions_of(s, slug).contains(s[i]),
        forall|i: int| 0 <= i < sessions_of(s, slug).len() ==>
            (#[trigger] sessions_of(s, slug)[i]).presentation_slug@ == slug,
    decreases s.len(),
{
    reveal(Seq::filter);
    let pred = |x: Session| x.presentation_slug@ == slug;
    if s.len() > 0 {
        lemma_sessions_of_are_the_slug_filter(s.drop_last(), slug);
    }
    assert(sessions_of(s, slug) == s.filter(pred));
    assert forall|i: int| 0 <= i < s.len() && s[i].presentation_slug@ == slug implies
        #[trigger] sessions_of(s, slug).contains(s[i]) by {
        s.lemma_filter_contains(pred, i);
    }
    assert forall|i: int| 0 <= i < sessions_of(s, slug).len() implies
        (#[trigger] sessions_of(s, slug)[i]).presentation_slug@ == slug by {
        s.lemma_filter_pred(pred, i);
    }
}

/// The film has at least one future DTLA session among `s` at `now`.
pub open spec fn plays(f: Film, s: Seq<Session>, now: UtcTime) -> bool {
    future_sessions(sessions_of(s, f.slug@), now).len() > 0
}

/// The films that have a future DTLA session, in input order.
pub open spec fn playing(films: Seq<Film>, s: Seq<Session>, now: UtcTime) -> Seq<Film>
    decreases films.len(),
{
    if films.len() == 0 {
        Seq::empty()
    } else if plays(films.last(), s, now) {
        playing(films.drop_last(), s, now).push(films.last())
    } else {
        playing(films.drop_last(), s, now)
    }
}

/// The films on the page are exactly those with a future DTLA session, in
/// feed order: the films filtered by that test.
pub proof fn lemma_playing_is_the_filter(films: Seq<Film>, s: Seq<Session>, now: UtcTime)
    ensures
        playing(films, s, now) == films.filter(|f: Film| plays(f, s, now)),
    decreases films.len(),
{
    reveal(Seq::filter);
    if films.len() > 0 {
        lemma_playing_is_the_filter(films.drop_last(), s, now);
    }
    assert(playing(films, s, now) == films.filter(|f: Film| plays(f, s, now)));
}

/// A later `now` only drops films: every film that plays at `later` also
/// plays at any `now` not after it.
pub proof fn lemma_later_now_only_drops_films(films: Seq<Film>, s: Seq<Session>, now: UtcTime, later: UtcTime)
    requires
        !crate::clock::earlier(later, now),
    ensures
        forall|f: Film| playing(films, s, later).contains(f) ==> playing(films, s, now).contains(f),
    decreases films.len(),
{
    if films.len() > 0 {
        lemma_later_now_only_drops_films(films.drop_last(), s, now, later);
        let init_later = playing(films.drop_last(), s, later);
        let init_now = playing(films.drop_last(), s, now);
        let last = films.last();
        if plays(last, s, later) {
            crate::schedule::lemma_future_at_earlier_now(sessions_of(s, last.slug@), now, later);
        }
        assert forall|f: Film| playing(films, s, later).contains(f) implies playing(films, s, now).contains(f) by {
            let pl = playing(films, s, later);
            let pn = playing(films, s, now);
            let k = choose|k: int| 0 <= k < pl.len() && pl[k] == f;
            if k < init_later.len() {
                assert(pl[k] == init_later[k]);
                assert(init_later.contains(f));
                let j = choose|j: int| 0 <= j < init_now.len() && init_now[j] == f;
                if plays(last, s, now) {
                    assert(pn[j] == init_now[j]);
                } else {
                    assert(pn[j] == init_now[j]);
                }
            } else {
                assert(f == last);
                assert(pn[pn.len() - 1] == last);
            }
        }
    }
}

/// `b` holds, in film order, the schedule of every film that plays and of no
/// other film, each built from the film's own sessions.
pub open spec fn schedules_for(films: Seq<Film>, s: Seq<Session>, now: UtcTime, b: Seq<FilmSchedule>) -> bool {
    &&& b.map_values(|fs: FilmSchedule| fs.film) == playing(films, s, now)
    &&& forall|i: int| 0 <= i < b.len() ==>
        is_schedule_for((#[trigger] b[i]).film, sessions_of(s, b[i].film.slug@), now, b[i])
}

/// The sessions of one presentation, found by a scan of all sessions, in
/// input order.
fn sessions_for(sessions: &[Session], slug: &str) -> (r: Vec<Session>)
    ensures
        r@ == sessions_of(sessions@, slug@),
{
    let mut r: Vec<Session> = Vec::new();
    let mut k: usize = 0;
    while k < sessions.len()
        invariant
            k <= sessions@.len(),
            r@ == sessions_of(sessions@.take(k as int), slug@),
        decreases sessions@.len() - k,
    {
        proof {
            assert(sessions@.take(k + 1).drop_last() =~= sessions@.take(k as int));
            assert(sessions@.take(k + 1).last() == sessions@[k as int]);
        }
        if str_eq(sessions[k].presentation_slug.as_str(), slug) {
            r.push(copy_session(&sessions[k]));
        }
        k = k + 1;
    }
    proof {
        assert(sessions@.take(sessions@.len() as int) =~= sessions@);
    }
    r
}

/// The pipeline after the feed is read: sessions are joined to their
/// presentation by `presentation_slug`; films with no future DTLA session
/// are dropped; the rest are ordered soonest-first and rendered.
pub fn build_page(films: Vec<Film>, sessions: &[Session], now: UtcTime) -> (out: String)
    ensures
        exists|built: Seq<FilmSchedule>, ordered: Seq<FilmSchedule>| {
            &&& schedules_for(films@, sessions@, now, built)
            &&& stably_sorted_by_earliest(built, ordered)
            &&& out@ == page(ordered)
        },
{
    proof {
        reveal_strlit("");
    }
    build_page_with_app(films, sessions, now, "")
}

/// The same pipeline, embedding the toggle app's script in the page.
pub fn build_page_with_app(films: Vec<Film>, sessions: &[Session], now: UtcTime, app_script: &str) -> (out: String)
    ensures
        exists|built: Seq<FilmSchedule>, ordered: Seq<FilmSchedule>| {
            &&& schedules_for(films@, sessions@, now, built)
            &&& stably_sorted_by_earliest(built, ordered)
            &&& out@ == page_with_app(ordered, app_script@)
        },
{
    let ghost all = films@;
    let mut films = films;
    let n: usize = films.len();
    let mut schedules: Vec<FilmSchedule> = Vec::new();
    let mut k: usize = 0;
    assert(films@ =~= all.skip(0));
    assert(schedules@.map_values(|x: FilmSchedule| x.film) =~= playing(all.take(0), sessions@, now));
    while k < n
        invariant
            n == all.len(),
            k <= n,
            films@ == all.skip(k as int),
            schedules_for(all.take(k as int), sessions@, now, schedules@),
        decreases n - k,
    {
        proof {
            assert(all.take(k + 1).drop_last() =~= all.take(k as int));
            assert(all.take(k + 1).last() == all[k as int]);
        }
        assert(films@[0] == all[k as int]);
        let film = films.remove(0);
        assert(films@ =~= all.skip(k + 1));
        let own = sessions_for(sessions, film.slug.as_str());
        let ghost f = film;
        let ghost old_sched = schedules@;
        match FilmSchedule::build(film, own.as_slice(), now) {
            Some(fs) => {
                schedules.push(fs);
                proof {
                    assert(schedules@.map_values(|x: FilmSchedule| x.film)
                        =~= old_sched.map_values(|x: FilmSchedule| x.film).push(f));
                    assert forall|i: int| 0 <= i < schedules@.len() implies
                        is_schedule_for((#[trigger] schedules@[i]).film, sessions_of(sessions@, schedules@[i].film.slug@), now, schedules@[i]) by {
                        if i < old_sched.len() {
                            assert(schedules@[i] == old_sched[i]);
                        }
                    }
                }
            },
            None => {},
        }
        k = k + 1;
    }
    proof {
        assert(all.take(n as int) =~= all);
    }
    let ghost built = schedules@;
    sort_films(schedules.as_mut_slice());
    let out = render_page_with_app(schedules.as_slice(), app_script);
    assert(schedules_for(all, sessions@, now, built) && stably_sorted_by_earliest(built, schedules@)
        && out@ == page_with_app(schedules@, app_script@));
    out
}

/// Some schedule of `shown` is the film's: the page of `shown` has a card for it.
pub open spec fn shows_film(shown: Seq<FilmSchedule>, f: Film) -> bool {
    exists|j: int| 0 <= j < shown.len() && (#[trigger] shown[j]).film == f
}

/// A later `now` only drops cards from the page: the films that
/// `build_page_with_app` puts on the page at `later`, each in a card of its
/// own, all have a card on the page it builds from the same feed at any
/// `now` not after `later`.
pub proof fn lemma_later_page_only_drops_films(
    films: Seq<Film>,
    s: Seq<Session>,
    now: UtcTime,
    later: UtcTime,
    built_now: Seq<FilmSchedule>,
    shown_now: Seq<FilmSchedule>,
    built_later: Seq<FilmSchedule>,
    shown_later: Seq<FilmSchedule>,
)
    requires
        !crate::clock::earlier(later, now),
        schedules_for(films, s, now, built_now),
        stably_sorted_by_earliest(built_now, shown_now),
        schedules_for(films, s, later, built_later),
        stably_sorted_by_earliest(built_later, shown_later),
    ensures
        forall|i: int| 0 <= i < shown_later.len() ==> shows_film(shown_now, #[trigger] shown_later[i].film),
{
    let p_now = choose|p: Seq<int>| is_stable_sort_by_earliest(built_now, shown_now, p);
    let p_later = choose|p: Seq<int>| is_stable_sort_by_earliest(built_later, shown_later, p);
    lemma_later_now_only_drops_films(films, s, now, later);
    lemma_positions_cover(p_now, built_now.len() as int);
    let pl_later = playing(films, s, later);
    let pl_now = playing(films, s, now);
    assert(built_later.map_values(|fs: FilmSchedule| fs.film) == pl_later);
    assert(built_now.map_values(|fs: FilmSchedule| fs.film) == pl_now);
    assert forall|i: int| 0 <= i < shown_later.len() implies shows_film(shown_now, #[trigger] shown_later[i].film) by {
        let k = p_later[i];
        let f = shown_later[i].film;
        assert(shown_later[i] == built_later[k]);
        assert(built_later.map_values(|fs: FilmSchedule| fs.film)[k] == f);
        assert(pl_later[k] == f);
        assert(pl_later.contains(f));
        assert(pl_now.contains(f));
        let m = choose|m: int| 0 <= m < pl_now.len() && pl_now[m] == f;
        assert(built_now.map_values(|fs: FilmSchedule| fs.film)[m] == f);
        assert(built_now[m].film == f);
        assert(p_now.contains(m));
        let j = choose|j: int| 0 <= j < p_now.len() && p_now[j] == m;
        assert(shown_now[j] == built_now[p_now[j]]);
        assert(shown_now[j].film == f);
    }
}

} // verus!
