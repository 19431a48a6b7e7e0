# cursor_stats

The logic of a tray and overlay app that shows how much of a Cursor plan has
been used: which usage events count for today, how events fall into chat
sessions, the buckets of the cost chart, calendar arithmetic on billing dates,
paging and caching of dashboard requests, the session cookie and its JWT, the
settings and the tray menu. The functions of the library are verified with
Verus against their contracts; the few calls into `std` and `base64` that
Verus cannot read go through small wrappers whose doc comments say what they
assume.

## Layout

- `src/text.rs`: trimming, splitting, searching and decimal numbers on `char`
  sequences, with their specifications.
- `src/chats.rs`: usage events, their conversation keys, and the split into
  sessions (`group_recent_chats`), proved to be a partition of the timestamped
  events, newest first.
- `src/reorder.rs`: reordering the usage events leaves the sessions, and the
  recent chats reported from them, unchanged.
- `src/time.rs`: ISO timestamps, the Gregorian day count and the calendar days
  left to a billing date.
- `src/series.rs`: chart ranges, bucket sizes and the counting of events into
  buckets.
- `src/fetch.rs`: paging, the events cache, response status handling and cost
  text.
- `src/auth.rs`: the session cookie and the JWT payload (decoded with
  `base64`).
- `src/settings.rs`: the settings, their defaults, the offered choices and
  their labels.
- `src/tray.rs`: tray menu item ids and the action each one names, with the
  round trip between them.
- `app/`: the Tauri application around the library: windows, tray, HTTP
  requests, the state database, settings files and the dollar figures.
- `tests/`: tests of the library on concrete values.
