# qobuz_player

The streaming and control logic of a Qobuz music player, verified with Verus.

- `src/` is the verified library:
  - `segments` — where a seek lands in a stream made of a FLAC header and
    numbered audio segments, and how many bytes of the chosen segment to skip.
  - `store` — the decrypted segments held in memory (whole and partial), the
    plan for each segment of a download pass, the segments still missing, and
    the cache file image.
  - `frames` — streaming one segment while it downloads: which samples are
    complete, and which decrypted bytes to send past a skipped prefix.
  - `reader` — seeks from the end of a stream of known length.
  - `params`, `models`, `error` — the stream parameters, API models and errors.
  - `mqtt` — broker URI checking, topics and commands of the MQTT bridge.
  - `ui` — the decisions of the GTK pages: filtering, selection, sections.
  - `text` — string helpers (trim, search, split, replace, decimal numbers)
    and the trusted wrapper of `str::to_lowercase`.
- `app/` holds the I/O around it: HTTP downloads, the async streaming tasks,
  file storage, the GTK grid page and detail-page scaffold, the MQTT message
  helpers, and the serde, snafu and clap copies of the library's types. The
  sample-table parser and frame cipher come in through the `SegmentCipher`
  trait.
- `tests/` runs the library on concrete values.
