# vista_tv

The playlist engine of a local-first desktop IPTV player, written in Verus.

`src/` is the verified library:

- `playlist` — the extended-M3U parser (`#EXTINF` attributes, display
  names, `#EXTGRP` groups), specified line by line over the characters of
  the document.
- `xtream` — the Xtream Codes sign-in as a state machine: `fetch_live`
  gives the first request, `LiveFetch::advance` takes each reply and gives
  the next request or the channels; host normalization, credential
  percent-encoding and the error texts of provider replies.
- `json` — provider replies: `serde_json` parses the text into the
  library's own JSON model, from which the fields of the sign-in are read.
- `store` — the channel store's records, the SQL of channel searches and
  group lists, FTS5 prefix queries, and the group tally.
- `commands` — the decisions of the browser's commands (source locations,
  playlist downloads, refreshes, favorites).
- `laws` — properties of the library as a whole.
- `text`, `scan` — character-level helpers.

`app/` is the Tauri shell around it: the HTTP requests (ureq), the SQLite
database (rusqlite) and the commands that the web view invokes.
