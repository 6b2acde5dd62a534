# alamo

Builds a static HTML page of upcoming showtimes at the Alamo Drafthouse in
DTLA from the Drafthouse market schedule feed.

- `src/` is the library, each function proved against its contract: joining sessions to films,
  keeping future DTLA sessions, grouping showtimes by day, ordering films
  soonest-first, the date and time labels, HTML and JSON escaping, the page
  itself, and a four-week calendar of which films play on which day.
  Parsing timestamps and dating days is done by `chrono`, behind small
  trusted wrappers whose contracts name what chrono returns.
- `app/` is the command-line program: it fetches the feed with `reqwest`,
  reads the JSON with `serde_json` into the library's films and sessions, and
  prints the page with the toggle app's built script embedded; the script's
  path is its one argument.
- `tests/` exercises the library on concrete values.
