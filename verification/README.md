# minitodo

A small terminal planner. Tasks live in a plain-text database, one per line
(`<task> due:<%Y-%m-%d(%H:%M:%S)>`); the planner prints a day table (one row
per span of hours, the tasks due in that span in its cells) and a week table
(seven day tables, one below the other or side by side), and reads an edited
day table back into tasks.

Layout:

- `src/` — the library, verified with Verus:
  - `text.rs`: texts as character sequences with the byte length `str::len`
    reports; splitting, joining, trimming, `lines`, byte-index slicing.
  - `files.rs`: the settings and the task database: reading tasks from the
    database text, writing one more, removing one.
  - `clock.rs`: datetimes as seconds; reading and writing them goes through
    chrono.
  - `tables.rs`: the day table, the week table, reading a day table back.
  - `config.rs`: where the settings live and their defaults.
- `app/main.rs` — the command line program: files, standard input, the clock,
  the TOML settings file.
- `tests/` — tests of the library.
